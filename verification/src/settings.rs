//! The settings file as a whole: which lines saving writes, and what reading
//! them back sets. The numeric settings are floats, which the caller formats
//! and parses; here they travel as text.

use vstd::prelude::*;

use crate::config::{
    bool_str, join_list, joined, key_of, list_items, parse_list, parse_setting, push_setting,
    setting_line, setting_of, strings_view, Key, ThemeMode, TreeSide,
};
use crate::index::{lines_of, split_lines};
use crate::text::{append, is_space, trim, trim_end, trim_start};

verus! {

/// Everything the settings file holds that is not a number.
#[derive(Debug, Clone, PartialEq, Eq)]
pub struct Settings {
    /// Vault reopened on the next launch.
    pub vault: Option<String>,
    pub tree_side: TreeSide,
    pub tree_visible: bool,
    pub theme: ThemeMode,
    pub decorations: bool,
    /// Command palette history, most recently used first.
    pub recent_commands: Vec<String>,
    /// Keys written by some other version, kept verbatim and in order.
    pub unknown: Vec<(String, String)>,
}

/// The settings as the contracts see them.
pub struct SettingsView {
    pub vault: Option<Seq<char>>,
    pub tree_side: TreeSide,
    pub tree_visible: bool,
    pub theme: ThemeMode,
    pub decorations: bool,
    pub recent: Seq<Seq<char>>,
    pub unknown: Seq<(Seq<char>, Seq<char>)>,
}

pub open spec fn pairs_view(v: Seq<(String, String)>) -> Seq<(Seq<char>, Seq<char>)> {
    v.map_values(|p: (String, String)| (p.0@, p.1@))
}

impl View for Settings {
    type V = SettingsView;

    open spec fn view(&self) -> SettingsView {
        SettingsView {
            vault: match self.vault {
                Some(v) => Some(v@),
                None => None,
            },
            tree_side: self.tree_side,
            tree_visible: self.tree_visible,
            theme: self.theme,
            decorations: self.decorations,
            recent: strings_view(self.recent_commands@),
            unknown: pairs_view(self.unknown@),
        }
    }
}

/// The settings of a fresh install.
pub open spec fn default_settings() -> SettingsView {
    SettingsView {
        vault: None,
        tree_side: TreeSide::Left,
        tree_visible: true,
        theme: ThemeMode::Light,
        decorations: false,
        recent: Seq::empty(),
        unknown: Seq::empty(),
    }
}

/// The keys whose values are numbers, left to the caller.
pub open spec fn is_number_key(k: Key) -> bool {
    match k {
        Key::TreeSize | Key::Opacity | Key::Blur | Key::FontSize | Key::WindowWidth
        | Key::WindowHeight => true,
        _ => false,
    }
}

/// The side a value names; the default for anything else.
pub open spec fn side_named(raw: Seq<char>) -> TreeSide {
    if raw == "left"@ {
        TreeSide::Left
    } else if raw == "right"@ {
        TreeSide::Right
    } else if raw == "bottom"@ {
        TreeSide::Bottom
    } else {
        TreeSide::Left
    }
}

/// The theme a value names; the default for anything else.
pub open spec fn theme_named(raw: Seq<char>) -> ThemeMode {
    if raw == "dark"@ {
        ThemeMode::Dark
    } else {
        ThemeMode::Light
    }
}

/// `s` after the line `key = value` is read. A number is not held here and
/// leaves `s` as it is.
pub open spec fn set_m(s: SettingsView, key: Seq<char>, value: Seq<char>) -> SettingsView {
    match key_of(key) {
        Key::Vault => SettingsView {
            vault: if value.len() == 0 {
                None
            } else {
                Some(value)
            },
            ..s
        },
        Key::TreeSide => SettingsView { tree_side: side_named(value), ..s },
        Key::TreeVisible => SettingsView { tree_visible: value == "true"@, ..s },
        Key::Theme => SettingsView { theme: theme_named(value), ..s },
        Key::Decorations => SettingsView { decorations: value == "true"@, ..s },
        Key::RecentCommands => SettingsView { recent: list_items(value), ..s },
        Key::Unknown => SettingsView { unknown: s.unknown.push((key, value)), ..s },
        _ => s,
    }
}

/// The numeric settings, as text.
pub struct Numbers {
    pub tree_size: String,
    pub opacity: String,
    pub blur: String,
    pub font_size: String,
    pub window_width: String,
    pub window_height: String,
}

pub struct NumbersView {
    pub tree_size: Seq<char>,
    pub opacity: Seq<char>,
    pub blur: Seq<char>,
    pub font_size: Seq<char>,
    pub window_width: Seq<char>,
    pub window_height: Seq<char>,
}

impl View for Numbers {
    type V = NumbersView;

    open spec fn view(&self) -> NumbersView {
        NumbersView {
            tree_size: self.tree_size@,
            opacity: self.opacity@,
            blur: self.blur@,
            font_size: self.font_size@,
            window_width: self.window_width@,
            window_height: self.window_height@,
        }
    }
}

/// The numbers as the file holds them, keyed, in the order they are written.
pub open spec fn number_pairs(n: NumbersView) -> Seq<(Key, Seq<char>)> {
    seq![
        (Key::TreeSize, n.tree_size),
        (Key::Opacity, n.opacity),
        (Key::Blur, n.blur),
        (Key::FontSize, n.font_size),
        (Key::WindowWidth, n.window_width),
        (Key::WindowHeight, n.window_height),
    ]
}

pub open spec fn keyed_view(v: Seq<(Key, String)>) -> Seq<(Key, Seq<char>)> {
    v.map_values(|p: (Key, String)| (p.0, p.1@))
}

/// The comment the file starts with.
pub open spec fn header() -> Seq<char> {
    "# Faust settings. Written as you change them; edits here load at next launch."@
}

/// The flag as the file writes it.
pub open spec fn flag_text(b: bool) -> Seq<char> {
    if b {
        "true"@
    } else {
        "false"@
    }
}

/// The lines saving writes, in order: the comment, every known setting, and
/// the unknown ones as they were read.
pub open spec fn saved_lines(s: SettingsView, n: NumbersView) -> Seq<Seq<char>> {
    seq![
        header(),
        setting_line("vault"@, match s.vault {
            Some(v) => v,
            None => Seq::empty(),
        }),
        setting_line("tree_side"@, s.tree_side.spec_label()),
        setting_line("tree_size"@, n.tree_size),
        setting_line("tree_visible"@, flag_text(s.tree_visible)),
        setting_line("theme"@, s.theme.spec_label()),
        setting_line("opacity"@, n.opacity),
        setting_line("blur"@, n.blur),
        setting_line("font_size"@, n.font_size),
        setting_line("decorations"@, flag_text(s.decorations)),
        setting_line("window_width"@, n.window_width),
        setting_line("window_height"@, n.window_height),
        setting_line("recent_commands"@, joined(s.recent)),
    ] + s.unknown.map_values(|p: (Seq<char>, Seq<char>)| setting_line(p.0, p.1))
}

/// Lines joined into a file, each ended by a newline.
pub open spec fn text_of_lines(ls: Seq<Seq<char>>) -> Seq<char>
    decreases ls.len(),
{
    if ls.len() == 0 {
        Seq::empty()
    } else {
        ls[0] + "\n"@ + text_of_lines(ls.drop_first())
    }
}

/// What reading is left with: the settings, and the numbers met, in order.
pub open spec fn read_step(
    st: (SettingsView, Seq<(Key, Seq<char>)>),
    line: Seq<char>,
) -> (SettingsView, Seq<(Key, Seq<char>)>) {
    match setting_of(line) {
        None => st,
        Some((k, v)) => if is_number_key(key_of(k)) {
            (st.0, st.1.push((key_of(k), v)))
        } else {
            (set_m(st.0, k, v), st.1)
        },
    }
}

/// Reading every line of `ls`, in order, from `st`.
pub open spec fn read_from(
    st: (SettingsView, Seq<(Key, Seq<char>)>),
    ls: Seq<Seq<char>>,
) -> (SettingsView, Seq<(Key, Seq<char>)>)
    decreases ls.len(),
{
    if ls.len() == 0 {
        st
    } else {
        read_step(read_from(st, ls.drop_last()), ls.last())
    }
}

/// What reading a settings file gives.
pub open spec fn read_text(text: Seq<char>) -> (SettingsView, Seq<(Key, Seq<char>)>) {
    read_from((default_settings(), Seq::empty()), lines_of(text))
}

impl Settings {
    /// The settings of a fresh install.
    pub fn new() -> (r: Settings)
        ensures
            r@ == default_settings(),
    {
        let r = Settings {
            vault: None,
            tree_side: TreeSide::Left,
            tree_visible: true,
            theme: ThemeMode::Light,
            decorations: false,
            recent_commands: Vec::new(),
            unknown: Vec::new(),
        };
        assert(r@.recent =~= Seq::<Seq<char>>::empty());
        assert(r@.unknown =~= Seq::<(Seq<char>, Seq<char>)>::empty());
        r
    }

    /// Takes in the setting `key = value`: a value that names nothing falls
    /// back to the default, a key this version does not know is kept, and a
    /// number is left to the caller.
    pub fn set(&mut self, key: &str, value: &str)
        ensures
            final(self)@ == set_m(old(self)@, key@, value@),
    {
        match Key::of(key) {
            Key::Vault => {
                self.vault = if value.is_empty() {
                    None
                } else {
                    Some(value.to_owned())
                };
            },
            Key::TreeSide => {
                self.tree_side = match TreeSide::parse(value) {
                    Some(side) => side,
                    None => TreeSide::Left,
                };
            },
            Key::TreeVisible => {
                self.tree_visible = crate::config::str_eq(value, "true");
            },
            Key::Theme => {
                self.theme = match ThemeMode::parse(value) {
                    Some(theme) => theme,
                    None => ThemeMode::Light,
                };
            },
            Key::Decorations => {
                self.decorations = crate::config::str_eq(value, "true");
            },
            Key::RecentCommands => {
                self.recent_commands = parse_list(value);
            },
            Key::Unknown => {
                let ghost before = self.unknown@;
                self.unknown.push((key.to_owned(), value.to_owned()));
                assert(pairs_view(self.unknown@) =~= pairs_view(before).push((key@, value@)));
            },
            _ => {},
        }
    }
}

/// A line appended to a file ends up after the lines before it.
pub proof fn lemma_text_push(ls: Seq<Seq<char>>, x: Seq<char>)
    ensures
        text_of_lines(ls.push(x)) == text_of_lines(ls) + x + "\n"@,
    decreases ls.len(),
{
    if ls.len() == 0 {
        assert(ls.push(x).drop_first() =~= Seq::<Seq<char>>::empty());
        assert(ls.push(x)[0] == x);
        assert(text_of_lines(Seq::<Seq<char>>::empty()) == Seq::<char>::empty());
        assert(text_of_lines(ls) == Seq::<char>::empty());
        assert(text_of_lines(ls.push(x)) =~= x + "\n"@);
    } else {
        assert(ls.push(x).drop_first() =~= ls.drop_first().push(x));
        lemma_text_push(ls.drop_first(), x);
        assert(text_of_lines(ls.push(x)) =~= ls[0] + "\n"@ + (text_of_lines(ls.drop_first()) + x + "\n"@));
    }
}

/// Whether a key's value is a number, left to the caller.
pub fn is_number(key: Key) -> (r: bool)
    ensures
        r == is_number_key(key),
{
    match key {
        Key::TreeSize | Key::Opacity | Key::Blur | Key::FontSize | Key::WindowWidth
        | Key::WindowHeight => true,
        _ => false,
    }
}

/// Reads a settings file: the settings it sets, and the numeric settings it
/// holds, in order, for the caller to parse.
pub fn read_settings(text: &str) -> (r: (Settings, Vec<(Key, String)>))
    ensures
        (r.0@, keyed_view(r.1@)) == read_text(text@),
{
    let lines = split_lines(text);
    let ghost ls = lines_of(text@);
    let mut settings = Settings::new();
    let mut numbers: Vec<(Key, String)> = Vec::new();
    let mut i: usize = 0;
    assert(ls.take(0) =~= Seq::<Seq<char>>::empty());
    assert(keyed_view(numbers@) =~= Seq::<(Key, Seq<char>)>::empty());
    while i < lines.len()
        invariant
            i <= lines@.len(),
            strings_view(lines@) == ls,
            (settings@, keyed_view(numbers@)) == read_from((default_settings(), Seq::empty()), ls.take(i as int)),
        decreases lines@.len() - i,
    {
        assert(ls.take(i + 1).drop_last() =~= ls.take(i as int));
        assert(ls.take(i + 1).last() == lines@[i as int]@);
        match parse_setting(lines[i].as_str()) {
            None => {},
            Some((k, v)) => {
                let key = Key::of(k.as_str());
                if is_number(key) {
                    let ghost before = numbers@;
                    numbers.push((key, v));
                    assert(keyed_view(numbers@) =~= keyed_view(before).push((key, v@)));
                } else {
                    settings.set(k.as_str(), v.as_str());
                }
            },
        }
        i += 1;
    }
    assert(ls.take(lines@.len() as int) =~= ls);
    (settings, numbers)
}

impl Settings {
    /// The settings file, with the numeric settings as `numbers` gives them.
    pub fn text(&self, numbers: &Numbers) -> (r: String)
        ensures
            r@ == text_of_lines(saved_lines(self@, numbers@)),
    {
        let mut out = String::new();
        let ghost mut ls: Seq<Seq<char>> = Seq::empty();
        proof {
            lemma_text_push(ls, header());
            ls = ls.push(header());
        }
        append(&mut out, "# Faust settings. Written as you change them; edits here load at next launch.");
        append(&mut out, "\n");
        let vault: &str = match &self.vault {
            Some(v) => v.as_str(),
            None => "",
        };
        proof {
            reveal_strlit("");
            lemma_text_push(ls, setting_line("vault"@, vault@));
            ls = ls.push(setting_line("vault"@, vault@));
        }
        push_setting(&mut out, "vault", vault);
        let side = self.tree_side.label();
        proof {
            lemma_text_push(ls, setting_line("tree_side"@, side@));
            ls = ls.push(setting_line("tree_side"@, side@));
        }
        push_setting(&mut out, "tree_side", side);
        proof {
            lemma_text_push(ls, setting_line("tree_size"@, numbers.tree_size@));
            ls = ls.push(setting_line("tree_size"@, numbers.tree_size@));
        }
        push_setting(&mut out, "tree_size", numbers.tree_size.as_str());
        let visible = bool_str(self.tree_visible);
        proof {
            lemma_text_push(ls, setting_line("tree_visible"@, visible@));
            ls = ls.push(setting_line("tree_visible"@, visible@));
        }
        push_setting(&mut out, "tree_visible", visible);
        let theme = self.theme.label();
        proof {
            lemma_text_push(ls, setting_line("theme"@, theme@));
            ls = ls.push(setting_line("theme"@, theme@));
        }
        push_setting(&mut out, "theme", theme);
        proof {
            lemma_text_push(ls, setting_line("opacity"@, numbers.opacity@));
            ls = ls.push(setting_line("opacity"@, numbers.opacity@));
        }
        push_setting(&mut out, "opacity", numbers.opacity.as_str());
        proof {
            lemma_text_push(ls, setting_line("blur"@, numbers.blur@));
            ls = ls.push(setting_line("blur"@, numbers.blur@));
        }
        push_setting(&mut out, "blur", numbers.blur.as_str());
        proof {
            lemma_text_push(ls, setting_line("font_size"@, numbers.font_size@));
            ls = ls.push(setting_line("font_size"@, numbers.font_size@));
        }
        push_setting(&mut out, "font_size", numbers.font_size.as_str());
        let decorations = bool_str(self.decorations);
        proof {
            lemma_text_push(ls, setting_line("decorations"@, decorations@));
            ls = ls.push(setting_line("decorations"@, decorations@));
        }
        push_setting(&mut out, "decorations", decorations);
        proof {
            lemma_text_push(ls, setting_line("window_width"@, numbers.window_width@));
            ls = ls.push(setting_line("window_width"@, numbers.window_width@));
        }
        push_setting(&mut out, "window_width", numbers.window_width.as_str());
        proof {
            lemma_text_push(ls, setting_line("window_height"@, numbers.window_height@));
            ls = ls.push(setting_line("window_height"@, numbers.window_height@));
        }
        push_setting(&mut out, "window_height", numbers.window_height.as_str());
        let recent = join_list(&self.recent_commands);
        proof {
            lemma_text_push(ls, setting_line("recent_commands"@, recent@));
            ls = ls.push(setting_line("recent_commands"@, recent@));
        }
        push_setting(&mut out, "recent_commands", recent.as_str());
        let ghost fixed = ls;
        let ghost unknown = self@.unknown;
        assert(fixed =~= saved_lines(self@, numbers@).take(13));
        let mut k: usize = 0;
        while k < self.unknown.len()
            invariant
                k <= self.unknown@.len(),
                unknown == self@.unknown,
                out@ == text_of_lines(ls),
                ls == fixed + unknown.take(k as int).map_values(|p: (Seq<char>, Seq<char>)| setting_line(p.0, p.1)),
            decreases self.unknown@.len() - k,
        {
            let (key, value) = &self.unknown[k];
            proof {
                assert(unknown[k as int] == (key@, value@));
                lemma_text_push(ls, setting_line(key@, value@));
                assert(unknown.take(k + 1).map_values(|p: (Seq<char>, Seq<char>)| setting_line(p.0, p.1))
                    =~= unknown.take(k as int).map_values(|p: (Seq<char>, Seq<char>)| setting_line(p.0, p.1)).push(setting_line(key@, value@)));
                ls = ls.push(setting_line(key@, value@));
            }
            push_setting(&mut out, key.as_str(), value.as_str());
            k += 1;
        }
        assert(unknown.take(unknown.len() as int) =~= unknown);
        assert(ls =~= saved_lines(self@, numbers@));
        out
    }
}

/// A line a file can hold as one line: no line break in it, and no carriage
/// return at its end, which reading would drop.
pub open spec fn plain_line(l: Seq<char>) -> bool {
    !l.contains('\n') && (l.len() == 0 || l.last() != '\r')
}

/// Splitting a file written line by line gives back its lines.
pub proof fn lemma_lines_of_text(ls: Seq<Seq<char>>)
    requires
        forall|i: int| 0 <= i < ls.len() ==> plain_line(#[trigger] ls[i]),
    ensures
        lines_of(text_of_lines(ls)) == ls,
    decreases ls.len(),
{
    if ls.len() == 0 {
        assert(text_of_lines(ls) =~= Seq::<char>::empty());
        assert(lines_of(Seq::<char>::empty()) =~= ls);
    } else {
        reveal_strlit("\n");
        let l = ls[0];
        let tail = ls.drop_first();
        assert forall|i: int| 0 <= i < tail.len() implies plain_line(#[trigger] tail[i]) by {
            assert(tail[i] == ls[i + 1]);
        }
        lemma_lines_of_text(tail);
        let rest = text_of_lines(tail);
        let t = l + "\n"@ + rest;
        assert(t == text_of_lines(ls));
        let n = l.len() as int;
        assert forall|k: int| 0 <= k < n implies t[k] != '\n' by {
            assert(t[k] == l[k]);
            if l[k] == '\n' {
                assert(l.contains('\n'));
            }
        }
        assert(t[n] == '\n');
        crate::config::lemma_index_of_exact(t, '\n', n);
        assert(t.take(n) =~= l);
        assert(t.skip(n + 1) =~= rest);
        assert(lines_of(t) =~= seq![l] + tail);
        assert(seq![l] + tail =~= ls);
    }
}

/// A text with no whitespace at either end is its own trimming.
proof fn lemma_trim_plain(x: Seq<char>)
    requires
        x.len() == 0 || (!is_space(x[0]) && !is_space(x.last())),
    ensures
        trim(x) == x,
{
    crate::text::lemma_lead_len_exact(x, 0);
    assert(trim_start(x) =~= x);
    crate::text::lemma_trail_len_exact(x, 0);
    assert(trim_end(x) =~= x);
}

/// A word of lower-case letters and underscores, as every key and every
/// named value this file writes is.
pub open spec fn word(k: Seq<char>) -> bool {
    &&& k.len() > 0
    &&& forall|i: int| 0 <= i < k.len() ==> ('a' <= #[trigger] k[i] <= 'z' || k[i] == '_')
}

proof fn lemma_word(k: Seq<char>)
    requires
        word(k),
    ensures
        trim(k) == k,
        k[0] != '#',
        !k.contains('='),
        !k.contains('\n'),
{
    assert(!is_space(k[0]));
    assert(!is_space(k[k.len() - 1]));
    lemma_trim_plain(k);
    if k.contains('=') {
        let i = choose|i: int| 0 <= i < k.len() && k[i] == '=';
        assert('a' <= k[i] <= 'z' || k[i] == '_');
    }
    if k.contains('\n') {
        let i = choose|i: int| 0 <= i < k.len() && k[i] == '\n';
        assert('a' <= k[i] <= 'z' || k[i] == '_');
    }
}

/// A value as reading leaves it: trimmed, and on one line.
pub open spec fn plain_value(v: Seq<char>) -> bool {
    trim(v) == v && !v.contains('\n')
}

/// A key as reading leaves it, on one line.
pub open spec fn plain_key(k: Seq<char>) -> bool {
    &&& trim(k) == k
    &&& k.len() > 0
    &&& k[0] != '#'
    &&& !k.contains('=')
    &&& !k.contains('\n')
}

/// The line of a plain key and a plain value is a plain line.
proof fn lemma_line_plain(k: Seq<char>, v: Seq<char>)
    requires
        plain_key(k),
        plain_value(v),
    ensures
        plain_line(setting_line(k, v)),
{
    reveal_strlit(" = ");
    let l = setting_line(k, v);
    if l.contains('\n') {
        let i = choose|i: int| 0 <= i < l.len() && l[i] == '\n';
        if i < k.len() {
            assert(l[i] == k[i]);
            assert(k.contains('\n'));
        } else if i >= k.len() + 3 {
            assert(l[i] == v[i - k.len() - 3]);
            assert(v.contains('\n'));
        }
    }
    if v.len() > 0 {
        crate::config::lemma_trimmed_ends(v);
        assert(l.last() == v.last());
    }
}

/// The recent-commands value of a list of plain commands is a plain value.
proof fn lemma_joined_plain(list: Seq<Seq<char>>)
    requires
        forall|i: int| 0 <= i < list.len() ==> trim(#[trigger] list[i]) == list[i] && list[i].len() > 0
            && !list[i].contains(',') && !list[i].contains('\n'),
    ensures
        plain_value(joined(list)),
        list.len() > 0 ==> joined(list).len() > 0 && joined(list)[0] == list[0][0]
            && joined(list).last() == list.last().last(),
    decreases list.len(),
{
    reveal_strlit(",");
    let j = joined(list);
    if list.len() == 0 {
        lemma_trim_plain(j);
    } else if list.len() == 1 {
        crate::config::lemma_trimmed_ends(list[0]);
    } else {
        let first = list.drop_last();
        assert forall|i: int| 0 <= i < first.len() implies trim(#[trigger] first[i]) == first[i] && first[i].len() > 0
            && !first[i].contains(',') && !first[i].contains('\n') by {
            assert(first[i] == list[i]);
        }
        lemma_joined_plain(first);
        let a = joined(first);
        let b = list.last();
        assert(j == a + ","@ + b);
        crate::config::lemma_trimmed_ends(list[0]);
        crate::config::lemma_trimmed_ends(b);
        assert(j[0] == a[0]);
        assert(first[0] == list[0]);
        assert(j.last() == b.last());
        lemma_trim_plain(j);
        if j.contains('\n') {
            let i = choose|i: int| 0 <= i < j.len() && j[i] == '\n';
            if i < a.len() {
                assert(j[i] == a[i]);
                assert(a.contains('\n'));
            } else if i > a.len() {
                assert(j[i] == b[i - a.len() - 1]);
                assert(b.contains('\n'));
            }
        }
    }
}

/// Reading one more line takes one more step.
proof fn lemma_read_push(st: (SettingsView, Seq<(Key, Seq<char>)>), ls: Seq<Seq<char>>, x: Seq<char>)
    ensures
        read_from(st, ls.push(x)) == read_step(read_from(st, ls), x),
{
    assert(ls.push(x).drop_last() =~= ls);
}

/// Reading two runs of lines is reading the first, then the second.
proof fn lemma_read_append(st: (SettingsView, Seq<(Key, Seq<char>)>), a: Seq<Seq<char>>, b: Seq<Seq<char>>)
    ensures
        read_from(st, a + b) == read_from(read_from(st, a), b),
    decreases b.len(),
{
    if b.len() == 0 {
        assert(a + b =~= a);
    } else {
        lemma_read_append(st, a, b.drop_last());
        assert((a + b).drop_last() =~= a + b.drop_last());
    }
}

/// Reading the lines of keys this version does not know keeps them, in order.
proof fn lemma_read_unknown(st: (SettingsView, Seq<(Key, Seq<char>)>), u: Seq<(Seq<char>, Seq<char>)>)
    requires
        forall|i: int| 0 <= i < u.len() ==> plain_key((#[trigger] u[i]).0) && plain_value(u[i].1)
            && key_of(u[i].0) == Key::Unknown,
    ensures
        read_from(st, u.map_values(|p: (Seq<char>, Seq<char>)| setting_line(p.0, p.1))) == (
            SettingsView { unknown: st.0.unknown + u, ..st.0 },
            st.1,
        ),
    decreases u.len(),
{
    let ls = u.map_values(|p: (Seq<char>, Seq<char>)| setting_line(p.0, p.1));
    if u.len() == 0 {
        assert(st.0.unknown + u =~= st.0.unknown);
        assert(ls.len() == 0);
    } else {
        let first = u.drop_last();
        assert forall|i: int| 0 <= i < first.len() implies plain_key((#[trigger] first[i]).0) && plain_value(first[i].1)
            && key_of(first[i].0) == Key::Unknown by {
            assert(first[i] == u[i]);
        }
        lemma_read_unknown(st, first);
        assert(ls.drop_last() =~= first.map_values(|p: (Seq<char>, Seq<char>)| setting_line(p.0, p.1)));
        let (k, v) = u.last();
        assert(u[u.len() - 1] == u.last());
        crate::config::law_setting_round_trip(k, v);
        assert(ls.last() == setting_line(k, v));
        assert(st.0.unknown + first.push((k, v)) =~= st.0.unknown + u);
        assert(first.push((k, v)) =~= u);
        assert((st.0.unknown + first).push((k, v)) =~= st.0.unknown + u);
    }
}

/// Settings and numbers as reading leaves them, so that saving can write
/// them: a remembered vault is a plain, non-empty value; each recent command
/// is trimmed, non-empty, and free of commas and line breaks; each kept key
/// is one this version does not know, and it and its value are plain; and
/// each number is a plain value.
pub open spec fn savable(s: SettingsView, n: NumbersView) -> bool {
    &&& match s.vault {
        Some(v) => v.len() > 0 && plain_value(v),
        None => true,
    }
    &&& forall|i: int| 0 <= i < s.recent.len() ==> trim(#[trigger] s.recent[i]) == s.recent[i]
        && s.recent[i].len() > 0 && !s.recent[i].contains(',') && !s.recent[i].contains('\n')
    &&& forall|i: int| 0 <= i < s.unknown.len() ==> plain_key((#[trigger] s.unknown[i]).0)
        && plain_value(s.unknown[i].1) && key_of(s.unknown[i].0) == Key::Unknown
    &&& plain_value(n.tree_size)
    &&& plain_value(n.opacity)
    &&& plain_value(n.blur)
    &&& plain_value(n.font_size)
    &&& plain_value(n.window_width)
    &&& plain_value(n.window_height)
}

proof fn lemma_read_setting(st: (SettingsView, Seq<(Key, Seq<char>)>), k: Seq<char>, v: Seq<char>)
    requires
        plain_key(k),
        plain_value(v),
    ensures
        plain_line(setting_line(k, v)),
        read_step(st, setting_line(k, v)) == if is_number_key(key_of(k)) {
            (st.0, st.1.push((key_of(k), v)))
        } else {
            (set_m(st.0, k, v), st.1)
        },
{
    crate::config::law_setting_round_trip(k, v);
    lemma_line_plain(k, v);
}

proof fn lemma_word_key(k: Seq<char>)
    requires
        word(k),
    ensures
        plain_key(k),
        plain_value(k),
{
    lemma_word(k);
}

proof fn lemma_key_vault()
    ensures
        key_of("vault"@) == Key::Vault,
{
    reveal_strlit("vault");

}

proof fn lemma_key_tree_side()
    ensures
        key_of("tree_side"@) == Key::TreeSide,
{
    reveal_strlit("tree_side");
    reveal_strlit("vault");
    assert("tree_side"@ != "vault"@) by { assert("tree_side"@.len() != "vault"@.len()); }
}

proof fn lemma_key_tree_size()
    ensures
        key_of("tree_size"@) == Key::TreeSize,
{
    reveal_strlit("tree_size");
    reveal_strlit("vault");
    reveal_strlit("tree_side");
    assert("tree_size"@ != "vault"@) by { assert("tree_size"@.len() != "vault"@.len()); }
    assert("tree_size"@ != "tree_side"@) by { assert("tree_size"@[7] != "tree_side"@[7]); }
}

proof fn lemma_key_tree_visible()
    ensures
        key_of("tree_visible"@) == Key::TreeVisible,
{
    reveal_strlit("tree_visible");
    reveal_strlit("vault");
    reveal_strlit("tree_side");
    reveal_strlit("tree_size");
    assert("tree_visible"@ != "vault"@) by { assert("tree_visible"@.len() != "vault"@.len()); }
    assert("tree_visible"@ != "tree_side"@) by { assert("tree_visible"@.len() != "tree_side"@.len()); }
    assert("tree_visible"@ != "tree_size"@) by { assert("tree_visible"@.len() != "tree_size"@.len()); }
}

proof fn lemma_key_theme()
    ensures
        key_of("theme"@) == Key::Theme,
{
    reveal_strlit("theme");
    reveal_strlit("vault");
    reveal_strlit("tree_side");
    reveal_strlit("tree_size");
    reveal_strlit("tree_visible");
    assert("theme"@ != "vault"@) by { assert("theme"@[0] != "vault"@[0]); }
    assert("theme"@ != "tree_side"@) by { assert("theme"@.len() != "tree_side"@.len()); }
    assert("theme"@ != "tree_size"@) by { assert("theme"@.len() != "tree_size"@.len()); }
    assert("theme"@ != "tree_visible"@) by { assert("theme"@.len() != "tree_visible"@.len()); }
}

proof fn lemma_key_opacity()
    ensures
        key_of("opacity"@) == Key::Opacity,
{
    reveal_strlit("opacity");
    reveal_strlit("vault");
    reveal_strlit("tree_side");
    reveal_strlit("tree_size");
    reveal_strlit("tree_visible");
    reveal_strlit("theme");
    assert("opacity"@ != "vault"@) by { assert("opacity"@.len() != "vault"@.len()); }
    assert("opacity"@ != "tree_side"@) by { assert("opacity"@.len() != "tree_side"@.len()); }
    assert("opacity"@ != "tree_size"@) by { assert("opacity"@.len() != "tree_size"@.len()); }
    assert("opacity"@ != "tree_visible"@) by { assert("opacity"@.len() != "tree_visible"@.len()); }
    assert("opacity"@ != "theme"@) by { assert("opacity"@.len() != "theme"@.len()); }
}

proof fn lemma_key_blur()
    ensures
        key_of("blur"@) == Key::Blur,
{
    reveal_strlit("blur");
    reveal_strlit("vault");
    reveal_strlit("tree_side");
    reveal_strlit("tree_size");
    reveal_strlit("tree_visible");
    reveal_strlit("theme");
    reveal_strlit("opacity");
    assert("blur"@ != "vault"@) by { assert("blur"@.len() != "vault"@.len()); }
    assert("blur"@ != "tree_side"@) by { assert("blur"@.len() != "tree_side"@.len()); }
    assert("blur"@ != "tree_size"@) by { assert("blur"@.len() != "tree_size"@.len()); }
    assert("blur"@ != "tree_visible"@) by { assert("blur"@.len() != "tree_visible"@.len()); }
    assert("blur"@ != "theme"@) by { assert("blur"@.len() != "theme"@.len()); }
    assert("blur"@ != "opacity"@) by { assert("blur"@.len() != "opacity"@.len()); }
}

proof fn lemma_key_font_size()
    ensures
        key_of("font_size"@) == Key::FontSize,
{
    reveal_strlit("font_size");
    reveal_strlit("vault");
    reveal_strlit("tree_side");
    reveal_strlit("tree_size");
    reveal_strlit("tree_visible");
    reveal_strlit("theme");
    reveal_strlit("opacity");
    reveal_strlit("blur");
    assert("font_size"@ != "vault"@) by { assert("font_size"@.len() != "vault"@.len()); }
    assert("font_size"@ != "tree_side"@) by { assert("font_size"@[0] != "tree_side"@[0]); }
    assert("font_size"@ != "tree_size"@) by { assert("font_size"@[0] != "tree_size"@[0]); }
    assert("font_size"@ != "tree_visible"@) by { assert("font_size"@.len() != "tree_visible"@.len()); }
    assert("font_size"@ != "theme"@) by { assert("font_size"@.len() != "theme"@.len()); }
    assert("font_size"@ != "opacity"@) by { assert("font_size"@.len() != "opacity"@.len()); }
    assert("font_size"@ != "blur"@) by { assert("font_size"@.len() != "blur"@.len()); }
}

proof fn lemma_key_decorations()
    ensures
        key_of("decorations"@) == Key::Decorations,
{
    reveal_strlit("decorations");
    reveal_strlit("vault");
    reveal_strlit("tree_side");
    reveal_strlit("tree_size");
    reveal_strlit("tree_visible");
    reveal_strlit("theme");
    reveal_strlit("opacity");
    reveal_strlit("blur");
    reveal_strlit("font_size");
    assert("decorations"@ != "vault"@) by { assert("decorations"@.len() != "vault"@.len()); }
    assert("decorations"@ != "tree_side"@) by { assert("decorations"@.len() != "tree_side"@.len()); }
    assert("decorations"@ != "tree_size"@) by { assert("decorations"@.len() != "tree_size"@.len()); }
    assert("decorations"@ != "tree_visible"@) by { assert("decorations"@.len() != "tree_visible"@.len()); }
    assert("decorations"@ != "theme"@) by { assert("decorations"@.len() != "theme"@.len()); }
    assert("decorations"@ != "opacity"@) by { assert("decorations"@.len() != "opacity"@.len()); }
    assert("decorations"@ != "blur"@) by { assert("decorations"@.len() != "blur"@.len()); }
    assert("decorations"@ != "font_size"@) by { assert("decorations"@.len() != "font_size"@.len()); }
}

proof fn lemma_key_window_width()
    ensures
        key_of("window_width"@) == Key::WindowWidth,
{
    reveal_strlit("window_width");
    reveal_strlit("vault");
    reveal_strlit("tree_side");
    reveal_strlit("tree_size");
    reveal_strlit("tree_visible");
    reveal_strlit("theme");
    reveal_strlit("opacity");
    reveal_strlit("blur");
    reveal_strlit("font_size");
    reveal_strlit("decorations");
    assert("window_width"@ != "vault"@) by { assert("window_width"@.len() != "vault"@.len()); }
    assert("window_width"@ != "tree_side"@) by { assert("window_width"@.len() != "tree_side"@.len()); }
    assert("window_width"@ != "tree_size"@) by { assert("window_width"@.len() != "tree_size"@.len()); }
    assert("window_width"@ != "tree_visible"@) by { assert("window_width"@[0] != "tree_visible"@[0]); }
    assert("window_width"@ != "theme"@) by { assert("window_width"@.len() != "theme"@.len()); }
    assert("window_width"@ != "opacity"@) by { assert("window_width"@.len() != "opacity"@.len()); }
    assert("window_width"@ != "blur"@) by { assert("window_width"@.len() != "blur"@.len()); }
    assert("window_width"@ != "font_size"@) by { assert("window_width"@.len() != "font_size"@.len()); }
    assert("window_width"@ != "decorations"@) by { assert("window_width"@.len() != "decorations"@.len()); }
}

proof fn lemma_key_window_height()
    ensures
        key_of("window_height"@) == Key::WindowHeight,
{
    reveal_strlit("window_height");
    reveal_strlit("vault");
    reveal_strlit("tree_side");
    reveal_strlit("tree_size");
    reveal_strlit("tree_visible");
    reveal_strlit("theme");
    reveal_strlit("opacity");
    reveal_strlit("blur");
    reveal_strlit("font_size");
    reveal_strlit("decorations");
    reveal_strlit("window_width");
    assert("window_height"@ != "vault"@) by { assert("window_height"@.len() != "vault"@.len()); }
    assert("window_height"@ != "tree_side"@) by { assert("window_height"@.len() != "tree_side"@.len()); }
    assert("window_height"@ != "tree_size"@) by { assert("window_height"@.len() != "tree_size"@.len()); }
    assert("window_height"@ != "tree_visible"@) by { assert("window_height"@.len() != "tree_visible"@.len()); }
    assert("window_height"@ != "theme"@) by { assert("window_height"@.len() != "theme"@.len()); }
    assert("window_height"@ != "opacity"@) by { assert("window_height"@.len() != "opacity"@.len()); }
    assert("window_height"@ != "blur"@) by { assert("window_height"@.len() != "blur"@.len()); }
    assert("window_height"@ != "font_size"@) by { assert("window_height"@.len() != "font_size"@.len()); }
    assert("window_height"@ != "decorations"@) by { assert("window_height"@.len() != "decorations"@.len()); }
    assert("window_height"@ != "window_width"@) by { assert("window_height"@.len() != "window_width"@.len()); }
}

proof fn lemma_key_recent_commands()
    ensures
        key_of("recent_commands"@) == Key::RecentCommands,
{
    reveal_strlit("recent_commands");
    reveal_strlit("vault");
    reveal_strlit("tree_side");
    reveal_strlit("tree_size");
    reveal_strlit("tree_visible");
    reveal_strlit("theme");
    reveal_strlit("opacity");
    reveal_strlit("blur");
    reveal_strlit("font_size");
    reveal_strlit("decorations");
    reveal_strlit("window_width");
    reveal_strlit("window_height");
    assert("recent_commands"@ != "vault"@) by { assert("recent_commands"@.len() != "vault"@.len()); }
    assert("recent_commands"@ != "tree_side"@) by { assert("recent_commands"@.len() != "tree_side"@.len()); }
    assert("recent_commands"@ != "tree_size"@) by { assert("recent_commands"@.len() != "tree_size"@.len()); }
    assert("recent_commands"@ != "tree_visible"@) by { assert("recent_commands"@.len() != "tree_visible"@.len()); }
    assert("recent_commands"@ != "theme"@) by { assert("recent_commands"@.len() != "theme"@.len()); }
    assert("recent_commands"@ != "opacity"@) by { assert("recent_commands"@.len() != "opacity"@.len()); }
    assert("recent_commands"@ != "blur"@) by { assert("recent_commands"@.len() != "blur"@.len()); }
    assert("recent_commands"@ != "font_size"@) by { assert("recent_commands"@.len() != "font_size"@.len()); }
    assert("recent_commands"@ != "decorations"@) by { assert("recent_commands"@.len() != "decorations"@.len()); }
    assert("recent_commands"@ != "window_width"@) by { assert("recent_commands"@.len() != "window_width"@.len()); }
    assert("recent_commands"@ != "window_height"@) by { assert("recent_commands"@.len() != "window_height"@.len()); }
}

/// Which key each name the file writes is.
proof fn lemma_keys()
    ensures
        key_of("vault"@) == Key::Vault,
        key_of("tree_side"@) == Key::TreeSide,
        key_of("tree_size"@) == Key::TreeSize,
        key_of("tree_visible"@) == Key::TreeVisible,
        key_of("theme"@) == Key::Theme,
        key_of("opacity"@) == Key::Opacity,
        key_of("blur"@) == Key::Blur,
        key_of("font_size"@) == Key::FontSize,
        key_of("decorations"@) == Key::Decorations,
        key_of("window_width"@) == Key::WindowWidth,
        key_of("window_height"@) == Key::WindowHeight,
        key_of("recent_commands"@) == Key::RecentCommands,
{
    lemma_key_vault();
    lemma_key_tree_side();
    lemma_key_tree_size();
    lemma_key_tree_visible();
    lemma_key_theme();
    lemma_key_opacity();
    lemma_key_blur();
    lemma_key_font_size();
    lemma_key_decorations();
    lemma_key_window_width();
    lemma_key_window_height();
    lemma_key_recent_commands();
}

/// Which value each named setting reads back as.
proof fn lemma_values(side: TreeSide, theme: ThemeMode, b: bool)
    ensures
        side_named(side.spec_label()) == side,
        theme_named(theme.spec_label()) == theme,
        (flag_text(b) == "true"@) == b,
{
    reveal_strlit("left");
    reveal_strlit("right");
    reveal_strlit("bottom");
    reveal_strlit("dark");
    reveal_strlit("light");
    reveal_strlit("true");
    reveal_strlit("false");
    assert("right"@ != "left"@) by { assert("right"@.len() != "left"@.len()); }
    assert("bottom"@ != "left"@) by { assert("bottom"@.len() != "left"@.len()); }
    assert("bottom"@ != "right"@) by { assert("bottom"@.len() != "right"@.len()); }
    assert("light"@ != "dark"@) by { assert("light"@.len() != "dark"@.len()); }
    assert("false"@ != "true"@) by { assert("false"@.len() != "true"@.len()); }
}

/// The names and named values the file writes are plain words.
proof fn lemma_words()
    ensures
        plain_key("vault"@),
        plain_key("tree_side"@),
        plain_key("tree_size"@),
        plain_key("tree_visible"@),
        plain_key("theme"@),
        plain_key("opacity"@),
        plain_key("blur"@),
        plain_key("font_size"@),
        plain_key("decorations"@),
        plain_key("window_width"@),
        plain_key("window_height"@),
        plain_key("recent_commands"@),
        forall|side: TreeSide| plain_value(#[trigger] side.spec_label()),
        forall|theme: ThemeMode| plain_value(#[trigger] theme.spec_label()),
        forall|b: bool| plain_value(#[trigger] flag_text(b)),
        plain_value(Seq::<char>::empty()),
{
    reveal_strlit("vault");
    reveal_strlit("tree_side");
    reveal_strlit("tree_size");
    reveal_strlit("tree_visible");
    reveal_strlit("theme");
    reveal_strlit("opacity");
    reveal_strlit("blur");
    reveal_strlit("font_size");
    reveal_strlit("decorations");
    reveal_strlit("window_width");
    reveal_strlit("window_height");
    reveal_strlit("recent_commands");
    reveal_strlit("left");
    reveal_strlit("right");
    reveal_strlit("bottom");
    reveal_strlit("dark");
    reveal_strlit("light");
    reveal_strlit("true");
    reveal_strlit("false");
    lemma_word_key("vault"@);
    lemma_word_key("tree_side"@);
    lemma_word_key("tree_size"@);
    lemma_word_key("tree_visible"@);
    lemma_word_key("theme"@);
    lemma_word_key("opacity"@);
    lemma_word_key("blur"@);
    lemma_word_key("font_size"@);
    lemma_word_key("decorations"@);
    lemma_word_key("window_width"@);
    lemma_word_key("window_height"@);
    lemma_word_key("recent_commands"@);
    lemma_word_key("left"@);
    lemma_word_key("right"@);
    lemma_word_key("bottom"@);
    lemma_word_key("dark"@);
    lemma_word_key("light"@);
    lemma_word_key("true"@);
    lemma_word_key("false"@);
    lemma_trim_plain(Seq::<char>::empty());
    assert forall|side: TreeSide| plain_value(#[trigger] side.spec_label()) by {
        match side {
            TreeSide::Left => {},
            TreeSide::Right => {},
            TreeSide::Bottom => {},
        }
    }
    assert forall|theme: ThemeMode| plain_value(#[trigger] theme.spec_label()) by {
        match theme {
            ThemeMode::Dark => {},
            ThemeMode::Light => {},
        }
    }
    assert forall|b: bool| plain_value(#[trigger] flag_text(b)) by {
        if b {} else {}
    }
}

/// The comment line is a plain line, and reads as nothing.
proof fn lemma_header()
    ensures
        setting_of(header()) is None,
        plain_line(header()),
{
    reveal_strlit("# Faust settings. Written as you change them; edits here load at next launch.");
    let h = header();
    assert(h[0] == '#');
    lemma_trim_plain(h);
    if h.contains('\n') {
        let i = choose|i: int| 0 <= i < h.len() && h[i] == '\n';
        assert(h[i] != '\n');
    }
}

/// Reading the comment and the known settings, as saving writes them.
#[verifier::rlimit(60)]
proof fn lemma_fixed_lines(s: SettingsView, n: NumbersView)
    requires
        savable(s, n),
    ensures
        read_from((default_settings(), Seq::<(Key, Seq<char>)>::empty()), saved_lines(s, n).take(13)) == (
            SettingsView { vault: s.vault, tree_side: s.tree_side, tree_visible: s.tree_visible, theme: s.theme,
                decorations: s.decorations, recent: s.recent, unknown: Seq::empty() },
            number_pairs(n),
        ),
{
    let init = (default_settings(), Seq::<(Key, Seq<char>)>::empty());
    lemma_keys();
    lemma_words();
    lemma_header();
    lemma_values(s.tree_side, s.theme, s.tree_visible);
    lemma_values(s.tree_side, s.theme, s.decorations);
    let vault = match s.vault {
        Some(v) => v,
        None => Seq::<char>::empty(),
    };
    lemma_joined_plain(s.recent);
    crate::config::law_list_round_trip(s.recent);
    let h = header();
    // The known settings, one line at a time.
    let e = Seq::<Seq<char>>::empty();
    let l1 = setting_line("vault"@, vault);
    let l2 = setting_line("tree_side"@, s.tree_side.spec_label());
    let l3 = setting_line("tree_size"@, n.tree_size);
    let l4 = setting_line("tree_visible"@, flag_text(s.tree_visible));
    let l5 = setting_line("theme"@, s.theme.spec_label());
    let l6 = setting_line("opacity"@, n.opacity);
    let l7 = setting_line("blur"@, n.blur);
    let l8 = setting_line("font_size"@, n.font_size);
    let l9 = setting_line("decorations"@, flag_text(s.decorations));
    let l10 = setting_line("window_width"@, n.window_width);
    let l11 = setting_line("window_height"@, n.window_height);
    let l12 = setting_line("recent_commands"@, joined(s.recent));
    let p0 = e.push(h);
    let p1 = p0.push(l1);
    let p2 = p1.push(l2);
    let p3 = p2.push(l3);
    let p4 = p3.push(l4);
    let p5 = p4.push(l5);
    let p6 = p5.push(l6);
    let p7 = p6.push(l7);
    let p8 = p7.push(l8);
    let p9 = p8.push(l9);
    let p10 = p9.push(l10);
    let p11 = p10.push(l11);
    let p12 = p11.push(l12);

    let r0 = init;
    lemma_read_push(init, e, h);
    assert(read_from(init, p0) == r0);

    let r1 = (SettingsView { vault: s.vault, ..init.0 }, init.1);
    assert(read_from(init, p1) == r1) by {
        lemma_read_push(init, p0, l1);
        lemma_read_setting(r0, "vault"@, vault);
    }

    let r2 = (SettingsView { tree_side: s.tree_side, ..r1.0 }, r1.1);
    assert(read_from(init, p2) == r2) by {
        lemma_read_push(init, p1, l2);
        lemma_read_setting(r1, "tree_side"@, s.tree_side.spec_label());
    }

    let r3 = (r2.0, r2.1.push((Key::TreeSize, n.tree_size)));
    assert(read_from(init, p3) == r3) by {
        lemma_read_push(init, p2, l3);
        lemma_read_setting(r2, "tree_size"@, n.tree_size);
    }

    let r4 = (SettingsView { tree_visible: s.tree_visible, ..r3.0 }, r3.1);
    assert(read_from(init, p4) == r4) by {
        lemma_read_push(init, p3, l4);
        lemma_read_setting(r3, "tree_visible"@, flag_text(s.tree_visible));
    }

    let r5 = (SettingsView { theme: s.theme, ..r4.0 }, r4.1);
    assert(read_from(init, p5) == r5) by {
        lemma_read_push(init, p4, l5);
        lemma_read_setting(r4, "theme"@, s.theme.spec_label());
    }

    let r6 = (r5.0, r5.1.push((Key::Opacity, n.opacity)));
    assert(read_from(init, p6) == r6) by {
        lemma_read_push(init, p5, l6);
        lemma_read_setting(r5, "opacity"@, n.opacity);
    }

    let r7 = (r6.0, r6.1.push((Key::Blur, n.blur)));
    assert(read_from(init, p7) == r7) by {
        lemma_read_push(init, p6, l7);
        lemma_read_setting(r6, "blur"@, n.blur);
    }

    let r8 = (r7.0, r7.1.push((Key::FontSize, n.font_size)));
    assert(read_from(init, p8) == r8) by {
        lemma_read_push(init, p7, l8);
        lemma_read_setting(r7, "font_size"@, n.font_size);
    }

    let r9 = (SettingsView { decorations: s.decorations, ..r8.0 }, r8.1);
    assert(read_from(init, p9) == r9) by {
        lemma_read_push(init, p8, l9);
        lemma_read_setting(r8, "decorations"@, flag_text(s.decorations));
    }

    let r10 = (r9.0, r9.1.push((Key::WindowWidth, n.window_width)));
    assert(read_from(init, p10) == r10) by {
        lemma_read_push(init, p9, l10);
        lemma_read_setting(r9, "window_width"@, n.window_width);
    }

    let r11 = (r10.0, r10.1.push((Key::WindowHeight, n.window_height)));
    assert(read_from(init, p11) == r11) by {
        lemma_read_push(init, p10, l11);
        lemma_read_setting(r10, "window_height"@, n.window_height);
    }

    let r12 = (SettingsView { recent: s.recent, ..r11.0 }, r11.1);
    assert(read_from(init, p12) == r12) by {
        lemma_read_push(init, p11, l12);
        lemma_read_setting(r11, "recent_commands"@, joined(s.recent));
    }

    assert(saved_lines(s, n).take(13) =~= p12);
    assert(r12.1 =~= number_pairs(n));
}

/// Every known setting's line is a plain line.
proof fn lemma_fixed_plain(s: SettingsView, n: NumbersView, i: int)
    requires
        savable(s, n),
        1 <= i < 13,
    ensures
        plain_line(saved_lines(s, n)[i]),
{
    lemma_words();
    lemma_joined_plain(s.recent);
    let vault = match s.vault {
        Some(v) => v,
        None => Seq::<char>::empty(),
    };
    let ls = saved_lines(s, n);
    if i == 1 { lemma_line_plain("vault"@, vault); }
    else if i == 2 { lemma_line_plain("tree_side"@, s.tree_side.spec_label()); }
    else if i == 3 { lemma_line_plain("tree_size"@, n.tree_size); }
    else if i == 4 { lemma_line_plain("tree_visible"@, flag_text(s.tree_visible)); }
    else if i == 5 { lemma_line_plain("theme"@, s.theme.spec_label()); }
    else if i == 6 { lemma_line_plain("opacity"@, n.opacity); }
    else if i == 7 { lemma_line_plain("blur"@, n.blur); }
    else if i == 8 { lemma_line_plain("font_size"@, n.font_size); }
    else if i == 9 { lemma_line_plain("decorations"@, flag_text(s.decorations)); }
    else if i == 10 { lemma_line_plain("window_width"@, n.window_width); }
    else if i == 11 { lemma_line_plain("window_height"@, n.window_height); }
    else { lemma_line_plain("recent_commands"@, joined(s.recent)); }
}

/// Saving settings and reading the file back gives the same settings, and
/// the numbers as they were written, in order; for settings and numbers as
/// reading leaves them.
pub proof fn law_settings_round_trip(s: SettingsView, n: NumbersView)
    requires
        savable(s, n),
    ensures
        read_text(text_of_lines(saved_lines(s, n))) == (s, number_pairs(n)),
{
    let ls = saved_lines(s, n);
    let init = (default_settings(), Seq::<(Key, Seq<char>)>::empty());
    lemma_keys();
    lemma_words();
    lemma_header();
    lemma_values(s.tree_side, s.theme, s.tree_visible);
    lemma_values(s.tree_side, s.theme, s.decorations);
    lemma_joined_plain(s.recent);
    crate::config::law_list_round_trip(s.recent);
    let p12 = saved_lines(s, n).take(13);
    let r12 = (
        SettingsView { vault: s.vault, tree_side: s.tree_side, tree_visible: s.tree_visible, theme: s.theme,
            decorations: s.decorations, recent: s.recent, unknown: Seq::empty() },
        number_pairs(n),
    );
    assert(read_from(init, p12) == r12) by {
        lemma_fixed_lines(s, n);
    }

    // The keys kept from another version, in order.
    let tail = s.unknown.map_values(|p: (Seq<char>, Seq<char>)| setting_line(p.0, p.1));
    assert(ls =~= p12 + tail);
    lemma_read_append(init, p12, tail);
    lemma_read_unknown(r12, s.unknown);
    assert(r12.0.unknown + s.unknown =~= s.unknown);
    assert(SettingsView { unknown: s.unknown, ..r12.0 } == s);

    // Every line is a plain line, so the file splits back into them.
    assert forall|i: int| 0 <= i < ls.len() implies plain_line(#[trigger] ls[i]) by {
        if i >= 13 {
            let (k, v) = s.unknown[i - 13];
            assert(ls[i] == setting_line(k, v));
            lemma_line_plain(k, v);
        } else if i > 0 {
            assert(p12[i] == ls[i]);
            lemma_fixed_plain(s, n, i);
        }
    }
    lemma_lines_of_text(ls);
}

} // verus!
