//! Settings: the vocabulary of the settings file and its line format.
//!
//! The settings file is a flat `key = value` list. Keys the running binary
//! does not recognise are kept and written back untouched, so an older build
//! can never silently discard a newer one's settings.

use vstd::prelude::*;

use crate::text::{
    chars_of, is_space, lead_len, lemma_lead_len_exact, lemma_trail_len_exact, string_of, string_of_range, trail_len, trim,
    trim_end, trim_range, trim_start,
};

verus! {

/// Where the file tree is docked.
#[derive(Debug, Clone, Copy, PartialEq, Eq, Structural)]
pub enum TreeSide {
    Left,
    Right,
    Bottom,
}

impl Default for TreeSide {
    fn default() -> (r: TreeSide)
        ensures
            r == TreeSide::Left,
    {
        TreeSide::Left
    }
}

impl TreeSide {
    pub open spec fn spec_label(self) -> Seq<char> {
        match self {
            TreeSide::Left => "left"@,
            TreeSide::Right => "right"@,
            TreeSide::Bottom => "bottom"@,
        }
    }

    pub fn label(self) -> (r: &'static str)
        ensures
            r@ == self.spec_label(),
    {
        match self {
            TreeSide::Left => "left",
            TreeSide::Right => "right",
            TreeSide::Bottom => "bottom",
        }
    }

    /// The side a settings value names, if it names one.
    pub fn parse(raw: &str) -> (r: Option<TreeSide>)
        ensures
            r == (if raw@ == "left"@ {
                Some(TreeSide::Left)
            } else if raw@ == "right"@ {
                Some(TreeSide::Right)
            } else if raw@ == "bottom"@ {
                Some(TreeSide::Bottom)
            } else {
                None
            }),
    {
        if str_eq(raw, "left") {
            Some(TreeSide::Left)
        } else if str_eq(raw, "right") {
            Some(TreeSide::Right)
        } else if str_eq(raw, "bottom") {
            Some(TreeSide::Bottom)
        } else {
            None
        }
    }
}

/// Which of the two built-in palettes to paint with.
#[derive(Debug, Clone, Copy, PartialEq, Eq, Structural)]
pub enum ThemeMode {
    /// Dark ink on a translucent light surface. This is the default.
    Light,
    /// Light ink on a translucent dark surface, for dark wallpapers.
    Dark,
}

impl Default for ThemeMode {
    fn default() -> (r: ThemeMode)
        ensures
            r == ThemeMode::Light,
    {
        ThemeMode::Light
    }
}

impl ThemeMode {
    pub open spec fn spec_label(self) -> Seq<char> {
        match self {
            ThemeMode::Dark => "dark"@,
            ThemeMode::Light => "light"@,
        }
    }

    pub fn label(self) -> (r: &'static str)
        ensures
            r@ == self.spec_label(),
    {
        match self {
            ThemeMode::Dark => "dark",
            ThemeMode::Light => "light",
        }
    }

    pub fn toggled(self) -> (r: ThemeMode)
        ensures
            r == (match self {
                ThemeMode::Dark => ThemeMode::Light,
                ThemeMode::Light => ThemeMode::Dark,
            }),
    {
        match self {
            ThemeMode::Dark => ThemeMode::Light,
            ThemeMode::Light => ThemeMode::Dark,
        }
    }

    /// The mode a settings value names, if it names one.
    pub fn parse(raw: &str) -> (r: Option<ThemeMode>)
        ensures
            r == (if raw@ == "dark"@ {
                Some(ThemeMode::Dark)
            } else if raw@ == "light"@ {
                Some(ThemeMode::Light)
            } else {
                None
            }),
    {
        if str_eq(raw, "dark") {
            Some(ThemeMode::Dark)
        } else if str_eq(raw, "light") {
            Some(ThemeMode::Light)
        } else {
            None
        }
    }
}

/// Whether two strings hold the same characters.
pub fn str_eq(a: &str, b: &str) -> (r: bool)
    ensures
        r == (a@ == b@),
{
    let x = chars_of(a);
    let y = chars_of(b);
    if x.len() != y.len() {
        return false;
    }
    let mut i: usize = 0;
    while i < x.len()
        invariant
            x@ == a@,
            y@ == b@,
            x.len() == y.len(),
            i <= x.len(),
            forall|k: int| 0 <= k < i ==> x@[k] == y@[k],
        decreases x.len() - i,
    {
        if x[i] != y[i] {
            return false;
        }
        i += 1;
    }
    assert(x@ =~= y@);
    true
}

/// The written form of a flag.
pub fn bool_str(value: bool) -> (r: &'static str)
    ensures
        r@ == (if value {
            "true"@
        } else {
            "false"@
        }),
{
    if value {
        "true"
    } else {
        "false"
    }
}

/// Every key the settings file knows, and the rest.
#[derive(Debug, Clone, Copy, PartialEq, Eq, Structural)]
pub enum Key {
    Vault,
    TreeSide,
    TreeSize,
    TreeVisible,
    Theme,
    Opacity,
    Blur,
    FontSize,
    Decorations,
    WindowWidth,
    WindowHeight,
    RecentCommands,
    /// Written by some other version; kept verbatim.
    Unknown,
}

pub open spec fn key_of(name: Seq<char>) -> Key {
    if name == "vault"@ {
        Key::Vault
    } else if name == "tree_side"@ {
        Key::TreeSide
    } else if name == "tree_size"@ {
        Key::TreeSize
    } else if name == "tree_visible"@ {
        Key::TreeVisible
    } else if name == "theme"@ {
        Key::Theme
    } else if name == "opacity"@ {
        Key::Opacity
    } else if name == "blur"@ {
        Key::Blur
    } else if name == "font_size"@ {
        Key::FontSize
    } else if name == "decorations"@ {
        Key::Decorations
    } else if name == "window_width"@ {
        Key::WindowWidth
    } else if name == "window_height"@ {
        Key::WindowHeight
    } else if name == "recent_commands"@ {
        Key::RecentCommands
    } else {
        Key::Unknown
    }
}

impl Key {
    /// The key a settings line names.
    pub fn of(name: &str) -> (r: Key)
        ensures
            r == key_of(name@),
    {
        if str_eq(name, "vault") {
            Key::Vault
        } else if str_eq(name, "tree_side") {
            Key::TreeSide
        } else if str_eq(name, "tree_size") {
            Key::TreeSize
        } else if str_eq(name, "tree_visible") {
            Key::TreeVisible
        } else if str_eq(name, "theme") {
            Key::Theme
        } else if str_eq(name, "opacity") {
            Key::Opacity
        } else if str_eq(name, "blur") {
            Key::Blur
        } else if str_eq(name, "font_size") {
            Key::FontSize
        } else if str_eq(name, "decorations") {
            Key::Decorations
        } else if str_eq(name, "window_width") {
            Key::WindowWidth
        } else if str_eq(name, "window_height") {
            Key::WindowHeight
        } else if str_eq(name, "recent_commands") {
            Key::RecentCommands
        } else {
            Key::Unknown
        }
    }
}

/// Index of the first occurrence of `c` in `s`, or `s.len()`.
pub open spec fn index_of(s: Seq<char>, c: char) -> int
    decreases s.len(),
{
    if s.len() == 0 {
        0
    } else if s[0] == c {
        0
    } else {
        1 + index_of(s.drop_first(), c)
    }
}

pub proof fn lemma_index_of(s: Seq<char>, c: char)
    ensures
        0 <= index_of(s, c) <= s.len(),
        forall|k: int| 0 <= k < index_of(s, c) ==> s[k] != c,
        index_of(s, c) < s.len() ==> s[index_of(s, c)] == c,
    decreases s.len(),
{
    if s.len() > 0 && s[0] != c {
        lemma_index_of(s.drop_first(), c);
        assert forall|k: int| 0 <= k < index_of(s, c) implies s[k] != c by {
            if k > 0 {
                assert(s[k] == s.drop_first()[k - 1]);
            }
        }
    }
}

pub proof fn lemma_index_of_exact(s: Seq<char>, c: char, n: int)
    requires
        0 <= n <= s.len(),
        forall|k: int| 0 <= k < n ==> s[k] != c,
        n < s.len() ==> s[n] == c,
    ensures
        index_of(s, c) == n,
    decreases s.len(),
{
    if n > 0 {
        assert forall|k: int| 0 <= k < n - 1 implies s.drop_first()[k] != c by {
            assert(s.drop_first()[k] == s[k + 1]);
        }
        if n - 1 < s.drop_first().len() {
            assert(s.drop_first()[n - 1] == s[n]);
        }
        lemma_index_of_exact(s.drop_first(), c, n - 1);
    }
}

/// The `key = value` pair a settings line holds: blank lines and `#`
/// comments hold none, nor does a line without `=`; both sides are trimmed.
pub open spec fn setting_of(line: Seq<char>) -> Option<(Seq<char>, Seq<char>)> {
    let t = trim(line);
    let eq = index_of(t, '=');
    if t.len() == 0 || t[0] == '#' || eq == t.len() {
        None
    } else {
        Some((trim(t.take(eq)), trim(t.skip(eq + 1))))
    }
}

/// First index of `c` in `v[from..to]`, or `to`.
fn find_char(v: &Vec<char>, from: usize, to: usize, c: char) -> (r: usize)
    requires
        from <= to <= v.len(),
    ensures
        r == from + index_of(v@.subrange(from as int, to as int), c),
        from <= r <= to,
{
    let ghost s = v@.subrange(from as int, to as int);
    let mut i = from;
    while i < to && v[i] != c
        invariant
            from <= i <= to <= v.len(),
            forall|k: int| from <= k < i ==> v@[k] != c,
        decreases to - i,
    {
        i += 1;
    }
    proof {
        assert forall|k: int| 0 <= k < i - from implies s[k] != c by {
            assert(s[k] == v@[from + k]);
        }
        if i < to {
            assert(s[i - from] == v@[i as int]);
        }
        lemma_index_of_exact(s, c, i - from);
    }
    i
}

/// First index of `c` in `v[from..to]`, or `to`.
pub fn find_char_in(v: &Vec<char>, from: usize, to: usize, c: char) -> (r: usize)
    requires
        from <= to <= v.len(),
    ensures
        r == from + index_of(v@.subrange(from as int, to as int), c),
        from <= r <= to,
{
    find_char(v, from, to, c)
}

/// Reads one line of the settings file.
pub fn parse_setting(line: &str) -> (r: Option<(String, String)>)
    ensures
        match r {
            Some((k, v)) => setting_of(line@) == Some((k@, v@)),
            None => setting_of(line@) is None,
        },
{
    let v = chars_of(line);
    let (a, b) = trim_range(&v, 0, v.len());
    assert(v@.subrange(0, v.len() as int) =~= line@);
    let ghost t = v@.subrange(a as int, b as int);
    if a == b || v[a] == '#' {
        assert(a < b ==> t[0] == v@[a as int]);
        return None;
    }
    assert(t[0] == v@[a as int]);
    let eq = find_char(&v, a, b, '=');
    if eq == b {
        return None;
    }
    let (ka, kb) = trim_range(&v, a, eq);
    let (va, vb) = trim_range(&v, eq + 1, b);
    proof {
        assert(t.take(eq - a) =~= v@.subrange(a as int, eq as int));
        assert(t.skip(eq - a + 1) =~= v@.subrange(eq + 1, b as int));
    }
    Some((string_of_range(&v, ka, kb), string_of_range(&v, va, vb)))
}

/// The line a setting is written as.
pub open spec fn setting_line(key: Seq<char>, value: Seq<char>) -> Seq<char> {
    key + " = "@ + value
}

/// Writes one setting, newline included.
pub fn push_setting(out: &mut String, key: &str, value: &str)
    ensures
        final(out)@ == old(out)@ + setting_line(key@, value@) + "\n"@,
{
    out.append(key);
    out.append(" = ");
    out.append(value);
    out.append("\n");
}

// ------------------------------------------------------- recent commands

/// Most-recently-used commands kept in the settings file.
pub const RECENT_LIMIT: usize = 16;

pub open spec fn strings_view(v: Seq<String>) -> Seq<Seq<char>> {
    v.map_values(|s: String| s@)
}

/// `list` without any occurrence of `id`, in order.
pub open spec fn without(list: Seq<Seq<char>>, id: Seq<char>) -> Seq<Seq<char>>
    decreases list.len(),
{
    if list.len() == 0 {
        list
    } else if list.last() == id {
        without(list.drop_last(), id)
    } else {
        without(list.drop_last(), id).push(list.last())
    }
}

/// The recent list after `id` is used: moved (or added) to the front,
/// never repeated, and cut to the limit.
pub open spec fn touched(list: Seq<Seq<char>>, id: Seq<char>) -> Seq<Seq<char>> {
    let all = seq![id] + without(list, id);
    if all.len() > RECENT_LIMIT {
        all.take(RECENT_LIMIT as int)
    } else {
        all
    }
}

/// Moves `id` to the front of the most-recently-used list.
pub fn touch_command(recent: &mut Vec<String>, id: &str)
    ensures
        strings_view(final(recent)@) == touched(strings_view(old(recent)@), id@),
{
    let ghost old_list = strings_view(recent@);
    let mut out: Vec<String> = Vec::new();
    out.push(id.to_owned());
    let mut i: usize = 0;
    assert(old_list.take(0) =~= Seq::<Seq<char>>::empty());
    assert(strings_view(out@) =~= seq![id@] + without(old_list.take(0), id@));
    while i < recent.len()
        invariant
            i <= recent.len(),
            old_list == strings_view(recent@),
            1 <= out.len() <= RECENT_LIMIT,
            ({
                let all = seq![id@] + without(old_list.take(i as int), id@);
                strings_view(out@) == if all.len() > RECENT_LIMIT {
                    all.take(RECENT_LIMIT as int)
                } else {
                    all
                }
            }),
        decreases recent.len() - i,
    {
        let ghost prev = seq![id@] + without(old_list.take(i as int), id@);
        assert(old_list.take(i + 1).drop_last() =~= old_list.take(i as int));
        assert(old_list.take(i + 1).last() == recent@[i as int]@);
        if !str_eq(recent[i].as_str(), id) && out.len() < RECENT_LIMIT {
            let ghost before = strings_view(out@);
            out.push(recent[i].clone());
            assert(strings_view(out@) =~= before.push(recent@[i as int]@));
            assert(seq![id@] + without(old_list.take(i + 1), id@) =~= prev.push(recent@[i as int]@));
        }
        proof {
            let next = seq![id@] + without(old_list.take(i + 1), id@);
            if recent@[i as int]@ != id@ {
                assert(next =~= prev.push(recent@[i as int]@));
                if prev.len() >= RECENT_LIMIT {
                    assert(next.take(RECENT_LIMIT as int) =~= prev.take(RECENT_LIMIT as int));
                }
            } else {
                assert(next =~= prev);
            }
        }
        i += 1;
    }
    assert(old_list.take(i as int) =~= old_list);
    *recent = out;
}

/// Items of a settings list: split at commas, trimmed, empty ones dropped.
pub open spec fn list_items(s: Seq<char>) -> Seq<Seq<char>>
    decreases s.len(),
{
    let i = index_of(s, ',');
    let item = trim(s.take(i));
    let rest = if 0 <= i < s.len() {
        list_items(s.skip(i + 1))
    } else {
        Seq::empty()
    };
    proof {
        lemma_index_of(s, ',');
    }
    if item.len() > 0 {
        seq![item] + rest
    } else {
        rest
    }
}

/// Reads the comma-separated recent-commands setting.
pub fn parse_list(value: &str) -> (r: Vec<String>)
    ensures
        strings_view(r@) == list_items(value@),
{
    let v = chars_of(value);
    let mut out: Vec<String> = Vec::new();
    let mut pos: usize = 0;
    assert(v@.skip(0) =~= v@);
    loop
        invariant
            pos <= v.len(),
            v@ == value@,
            list_items(value@) == strings_view(out@) + list_items(v@.skip(pos as int)),
        decreases v.len() - pos,
    {
        let ghost s = v@.skip(pos as int);
        let comma = find_char(&v, pos, v.len(), ',');
        assert(v@.subrange(pos as int, v.len() as int) =~= s);
        let (a, b) = trim_range(&v, pos, comma);
        assert(s.take(comma - pos) =~= v@.subrange(pos as int, comma as int));
        proof {
            lemma_index_of(s, ',');
        }
        let ghost before = strings_view(out@);
        if a < b {
            out.push(string_of_range(&v, a, b));
            assert(strings_view(out@) =~= before.push(v@.subrange(a as int, b as int)));
        }
        if comma == v.len() {
            assert(list_items(s) =~= (if a < b {
                seq![v@.subrange(a as int, b as int)]
            } else {
                Seq::<Seq<char>>::empty()
            }));
            return out;
        }
        assert(s.skip(comma - pos + 1) =~= v@.skip(comma + 1));
        pos = comma + 1;
    }
}

/// The comma-separated form of a list.
pub open spec fn joined(list: Seq<Seq<char>>) -> Seq<char>
    decreases list.len(),
{
    if list.len() == 0 {
        Seq::empty()
    } else if list.len() == 1 {
        list[0]
    } else {
        joined(list.drop_last()) + ","@ + list.last()
    }
}

/// Writes a list as the recent-commands setting.
pub fn join_list(list: &Vec<String>) -> (r: String)
    ensures
        r@ == joined(strings_view(list@)),
{
    let ghost l = strings_view(list@);
    let mut out = String::new();
    let mut i: usize = 0;
    while i < list.len()
        invariant
            i <= list.len(),
            l == strings_view(list@),
            out@ == joined(l.take(i as int)),
        decreases list.len() - i,
    {
        assert(l.take(i + 1).drop_last() =~= l.take(i as int));
        if i > 0 {
            out.append(",");
        }
        out.append(list[i].as_str());
        i += 1;
    }
    assert(l.take(i as int) =~= l);
    out
}

pub proof fn lemma_without_absent(l: Seq<Seq<char>>, x: Seq<char>)
    requires
        !l.contains(x),
    ensures
        without(l, x) == l,
    decreases l.len(),
{
    if l.len() > 0 {
        assert(!l.drop_last().contains(x)) by {
            if l.drop_last().contains(x) {
                let i = choose|i: int| 0 <= i < l.drop_last().len() && l.drop_last()[i] == x;
                assert(l[i] == x);
            }
        }
        lemma_without_absent(l.drop_last(), x);
        assert(l.last() != x) by {
            assert(l[l.len() - 1] == l.last());
        }
        assert(l.drop_last().push(l.last()) =~= l);
    }
}

pub proof fn lemma_without_contains(l: Seq<Seq<char>>, x: Seq<char>, y: Seq<char>)
    ensures
        without(l, x).contains(y) <==> l.contains(y) && y != x,
    decreases l.len(),
{
    if l.len() > 0 {
        lemma_without_contains(l.drop_last(), x, y);
        assert(l.drop_last().push(l.last()) =~= l);
        assert(l.contains(y) <==> l.drop_last().contains(y) || l.last() == y) by {
            if l.contains(y) {
                let i = choose|i: int| 0 <= i < l.len() && l[i] == y;
                if i < l.len() - 1 {
                    assert(l.drop_last()[i] == y);
                }
            }
            if l.drop_last().contains(y) {
                let i = choose|i: int| 0 <= i < l.drop_last().len() && l.drop_last()[i] == y;
                assert(l[i] == y);
            }
            assert(l[l.len() - 1] == l.last());
        }
        let w = without(l.drop_last(), x);
        if l.last() != x {
            assert(w.push(l.last()).contains(y) <==> w.contains(y) || l.last() == y) by {
                if w.push(l.last()).contains(y) {
                    let i = choose|i: int| 0 <= i < w.push(l.last()).len() && w.push(l.last())[i] == y;
                    if i < w.len() {
                        assert(w[i] == y);
                    }
                }
                if w.contains(y) {
                    let i = choose|i: int| 0 <= i < w.len() && w[i] == y;
                    assert(w.push(l.last())[i] == y);
                }
                assert(w.push(l.last())[w.len() as int] == l.last());
            }
        }
    }
}

pub proof fn lemma_without_no_dup(l: Seq<Seq<char>>, x: Seq<char>)
    requires
        l.no_duplicates(),
    ensures
        without(l, x).no_duplicates(),
    decreases l.len(),
{
    if l.len() > 0 {
        let p = l.drop_last();
        assert(p.no_duplicates()) by {
            assert forall|i: int, j: int| 0 <= i < p.len() && 0 <= j < p.len() && i != j implies p[i] != p[j] by {
                assert(p[i] == l[i] && p[j] == l[j]);
            }
        }
        lemma_without_no_dup(p, x);
        if l.last() != x {
            let w = without(p, x);
            lemma_without_contains(p, x, l.last());
            assert(!p.contains(l.last())) by {
                if p.contains(l.last()) {
                    let i = choose|i: int| 0 <= i < p.len() && p[i] == l.last();
                    assert(l[i] == l[l.len() - 1]);
                }
            }
            assert forall|i: int, j: int| 0 <= i < w.push(l.last()).len() && 0 <= j < w.push(l.last()).len() && i != j implies w.push(l.last())[i] != w.push(l.last())[j] by {
                if i == w.len() {
                    assert(w.contains(w[j]));
                } else if j == w.len() {
                    assert(w.contains(w[i]));
                }
            }
        }
    }
}


/// Using a command puts it first and never repeats one: a list without
/// repeats stays without them, within the limit.
pub proof fn law_touch_keeps_the_list_clean(list: Seq<Seq<char>>, id: Seq<char>)
    requires
        list.no_duplicates(),
    ensures
        touched(list, id).no_duplicates(),
        touched(list, id)[0] == id,
        touched(list, id).len() <= RECENT_LIMIT,
{
    let w = without(list, id);
    lemma_without_no_dup(list, id);
    let all = seq![id] + w;
    lemma_without_contains(list, id, id);
    assert(all.no_duplicates()) by {
        assert forall|i: int, j: int| 0 <= i < all.len() && 0 <= j < all.len() && i != j implies all[i] != all[j] by {
            if i == 0 {
                assert(w.contains(all[j]));
            } else if j == 0 {
                assert(w.contains(all[i]));
            } else {
                assert(all[i] == w[i - 1] && all[j] == w[j - 1]);
            }
        }
    }
    if all.len() > RECENT_LIMIT {
        let t = all.take(RECENT_LIMIT as int);
        assert forall|i: int, j: int| 0 <= i < t.len() && 0 <= j < t.len() && i != j implies t[i] != t[j] by {
            assert(t[i] == all[i] && t[j] == all[j]);
        }
    }
}

pub proof fn lemma_trimmed_ends(s: Seq<char>)
    requires
        trim(s) == s,
        s.len() > 0,
    ensures
        !is_space(s[0]),
        !is_space(s.last()),
{
    crate::text::lemma_lead_len(s);
    crate::text::lemma_trail_len(trim_start(s));
    if lead_len(s) > 0 {
        assert(trim(s).len() < s.len());
    }
    assert(trim_start(s) =~= s);
    if trail_len(s) > 0 {
        assert(trim(s).len() < s.len());
    }
}

/// A setting as it is written reads back as the same key and value, for a
/// key and value as reading leaves them: trimmed, the key neither empty nor
/// a comment, and without `=`.
pub proof fn law_setting_round_trip(key: Seq<char>, value: Seq<char>)
    requires
        trim(key) == key,
        trim(value) == value,
        key.len() > 0,
        key[0] != '#',
        !key.contains('='),
    ensures
        setting_of(setting_line(key, value)) == Some((key, value)),
{
    reveal_strlit(" = ");
    let line = setting_line(key, value);
    let n: int = key.len() as int;
    lemma_trimmed_ends(key);
    assert(line[0] == key[0]);
    lemma_lead_len_exact(line, 0);
    assert(trim_start(line) =~= line);
    assert(line[n] == ' ' && line[n + 1] == '=' && line[n + 2] == ' ');
    assert(!is_space('='));
    assert(is_space(' '));
    let t = trim(line);
    if value.len() > 0 {
        lemma_trimmed_ends(value);
        assert(line.last() == value.last());
        lemma_trail_len_exact(line, 0);
        assert(t =~= line);
    } else {
        lemma_trail_len_exact(line, 1);
        assert(t =~= key + seq![' ', '=']);
    }
    assert forall|k: int| 0 <= k < n + 1 implies t[k] != '=' by {
        if k < n {
            assert(t[k] == key[k]);
            if key[k] == '=' {
                assert(key.contains('='));
            }
        }
    }
    crate::config::lemma_index_of_exact(t, '=', n + 1);
    // The key side: `key` and one space.
    let ks = t.take(n + 1);
    assert(ks =~= key.push(' '));
    lemma_lead_len_exact(ks, 0);
    assert(ks.last() == ' ');
    assert(ks[ks.len() - 2] == key.last());
    lemma_trail_len_exact(ks, 1);
    assert(trim_start(ks) =~= ks);
    assert(trim(ks) =~= key);
    // The value side: one space and `value`, or nothing.
    let vs = t.skip(n + 2);
    if value.len() > 0 {
        assert(vs =~= seq![' '] + value);
        assert(vs[1] == value[0]);
        lemma_lead_len_exact(vs, 1);
        assert(trim_start(vs) =~= value);
        lemma_trail_len_exact(value, 0);
        assert(trim(vs) =~= value);
    } else {
        assert(vs =~= Seq::<char>::empty());
        lemma_lead_len_exact(vs, 0);
        lemma_trail_len_exact(vs, 0);
        assert(trim(vs) =~= value);
    }
}


pub proof fn lemma_joined_front(x: Seq<char>, rest: Seq<Seq<char>>)
    ensures
        joined(seq![x] + rest) == if rest.len() == 0 {
            x
        } else {
            x + ","@ + joined(rest)
        },
    decreases rest.len(),
{
    let l = seq![x] + rest;
    if rest.len() == 0 {
        assert(l =~= seq![x]);
    } else if rest.len() == 1 {
        assert(l.drop_last() =~= seq![x]);
        assert(joined(seq![x]) == x);
        assert(l.last() == rest[0]);
        assert(joined(rest) == rest[0]);
    } else {
        assert(l.drop_last() =~= seq![x] + rest.drop_last());
        lemma_joined_front(x, rest.drop_last());
        assert(l.last() == rest.last());
        assert(x + ","@ + joined(rest.drop_last()) + ","@ + rest.last() =~= x + ","@ + (joined(rest.drop_last()) + ","@ + rest.last()));
    }
}

/// A list written as the recent-commands setting reads back unchanged, for
/// items as reading leaves them: trimmed, non-empty, without commas.
pub proof fn law_list_round_trip(list: Seq<Seq<char>>)
    requires
        forall|i: int| 0 <= i < list.len() ==> trim(#[trigger] list[i]) == list[i] && list[i].len() > 0 && !list[i].contains(','),
    ensures
        list_items(joined(list)) == list,
    decreases list.len(),
{
    reveal_strlit(",");
    if list.len() == 0 {
        let e = Seq::<char>::empty();
        lemma_lead_len_exact(e, 0);
        lemma_trail_len_exact(e, 0);
        assert(e.take(0) =~= e);
        assert(trim(e) =~= e);
    } else {
        let x = list[0];
        let rest = list.drop_first();
        assert(list =~= seq![x] + rest);
        lemma_joined_front(x, rest);
        assert forall|k: int| 0 <= k < x.len() implies x[k] != ',' by {
            if x[k] == ',' {
                assert(x.contains(','));
            }
        }
        if rest.len() == 0 {
            lemma_index_of_exact(x, ',', x.len() as int);
            assert(x.take(x.len() as int) =~= x);
            assert(list_items(x) == seq![x]);
        } else {
            let s = x + ","@ + joined(rest);
            assert forall|k: int| 0 <= k < x.len() implies s[k] != ',' by {
                assert(s[k] == x[k]);
            }
            assert(s[x.len() as int] == ',');
            lemma_index_of_exact(s, ',', x.len() as int);
            assert(s.take(x.len() as int) =~= x);
            assert(s.skip(x.len() + 1int) =~= joined(rest));
            law_list_round_trip(rest);
            assert(list_items(s) == seq![x] + rest);
        }
    }
}

} // verus!
