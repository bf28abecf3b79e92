//! Vault index and content search: what a search finds and how a matching
//! line is shown. Walking the vault and reading files is the caller's part.

use vstd::prelude::*;

use crate::document::{decode_lossy, utf8_lossy};
use crate::paths::{lowercase, path_key, path_key_of, path_relative, relative_to, to_lowercase};
use crate::text::{
    append, chars_of, decimal, is_space, is_whitespace, push_char, push_decimal, string_of_range, trim, trim_range,
};

verus! {

/// Entries streamed to the UI in batches this large.
pub const BATCH: usize = 512;
/// Upper bound on indexed entries, so a stray vault cannot exhaust memory.
pub const MAX_ENTRIES: usize = 200000;
/// Content search stops here; nobody scrolls past it.
pub const MAX_HITS: usize = 400;
/// Hits are streamed in batches this large.
pub const HIT_BATCH: usize = 64;
/// Files larger than this are not searched for content.
pub const MAX_SEARCH_BYTES: u64 = 2097152;
/// Matching lines are elided beyond this many bytes.
pub const MAX_LINE: usize = 240;

/// A file or folder in the vault.
#[derive(Debug, Clone)]
pub struct FileEntry {
    pub path: String,
    /// Path relative to the vault root, used as the fuzzy haystack.
    pub display: String,
    pub is_dir: bool,
}

/// One matching line.
#[derive(Debug, Clone)]
pub struct Hit {
    pub path: String,
    pub display: String,
    pub line: u32,
    pub text: String,
}

/// What the search worker reports.
pub enum Message {
    Files { generation: u64, entries: Vec<FileEntry>, done: bool },
    Hits { generation: u64, hits: Vec<Hit>, done: bool },
}

// ------------------------------------------------------------------ lines

/// Bytes a character takes in UTF-8.
pub open spec fn utf8_width(c: char) -> nat {
    if (c as u32) < 0x80 {
        1
    } else if (c as u32) < 0x800 {
        2
    } else if (c as u32) < 0x10000 {
        3
    } else {
        4
    }
}

/// Bytes a string takes in UTF-8.
pub open spec fn utf8_len(s: Seq<char>) -> nat
    decreases s.len(),
{
    if s.len() == 0 {
        0
    } else {
        utf8_len(s.drop_last()) + utf8_width(s.last())
    }
}

fn char_width(c: char) -> (r: usize)
    ensures
        r == utf8_width(c),
{
    if (c as u32) < 0x80 {
        1
    } else if (c as u32) < 0x800 {
        2
    } else if (c as u32) < 0x10000 {
        3
    } else {
        4
    }
}

/// The longest prefix of `s` that fits in `budget` bytes, in characters.
pub open spec fn fitting(s: Seq<char>, budget: nat) -> nat
    decreases s.len(),
{
    if s.len() == 0 {
        0
    } else if utf8_len(s) <= budget {
        s.len()
    } else {
        fitting(s.drop_last(), budget)
    }
}

/// A matching line as it is shown: trimmed, and cut on a character boundary
/// with an ellipsis when it is longer than [`MAX_LINE`] bytes.
pub open spec fn elided(line: Seq<char>) -> Seq<char> {
    let t = trim(line);
    if utf8_len(t) <= MAX_LINE {
        t
    } else {
        t.take(fitting(t, MAX_LINE as nat) as int).push('\u{2026}')
    }
}

pub proof fn lemma_utf8_len_mono(s: Seq<char>, k: int)
    requires
        0 <= k <= s.len(),
    ensures
        utf8_len(s.take(k)) <= utf8_len(s),
    decreases s.len() - k,
{
    if k < s.len() {
        lemma_utf8_len_mono(s, k + 1);
        assert(s.take(k + 1).drop_last() =~= s.take(k));
    } else {
        assert(s.take(k) =~= s);
    }
}

pub proof fn lemma_fitting(s: Seq<char>, budget: nat)
    ensures
        fitting(s, budget) <= s.len(),
        utf8_len(s.take(fitting(s, budget) as int)) <= budget,
        fitting(s, budget) < s.len() ==> utf8_len(s.take(fitting(s, budget) + 1int)) > budget,
    decreases s.len(),
{
    if s.len() == 0 {
        assert(s.take(0) =~= s);
    } else if utf8_len(s) <= budget {
        assert(s.take(s.len() as int) =~= s);
    } else {
        let t = s.drop_last();
        lemma_fitting(t, budget);
        let f = fitting(t, budget);
        assert(s.take(f as int) =~= t.take(f as int));
        if f < t.len() {
            assert(s.take(f + 1int) =~= t.take(f + 1int));
        } else {
            assert(s.take(f + 1int) =~= s);
        }
    }
}

/// Trims a matching line to something that fits on one row.
pub fn elide(line: &str) -> (r: String)
    ensures
        r@ == elided(line@),
        utf8_len(r@) <= MAX_LINE + 3,
{
    let v = chars_of(line);
    let (a, b) = trim_range(&v, 0, v.len());
    assert(v@.subrange(0, v.len() as int) =~= line@);
    let ghost t = v@.subrange(a as int, b as int);
    // Bytes of t[..k], counted while they stay within the limit.
    let mut k: usize = a;
    let mut bytes: usize = 0;
    while k < b && bytes + char_width(v[k]) <= MAX_LINE
        invariant
            a <= k <= b <= v.len(),
            t == v@.subrange(a as int, b as int),
            bytes == utf8_len(t.take(k - a)),
            bytes <= MAX_LINE,
        decreases b - k,
    {
        assert(t.take(k - a + 1).drop_last() =~= t.take(k - a));
        assert(t.take(k - a + 1).last() == v@[k as int]);
        bytes = bytes + char_width(v[k]);
        k += 1;
    }
    proof {
        lemma_fitting(t, MAX_LINE as nat);
        if k < b {
            assert(t.take(k - a + 1).drop_last() =~= t.take(k - a));
            assert(t.take(k - a + 1).last() == v@[k as int]);
        }
    }
    if k == b {
        assert(t.take(b - a) =~= t);
        let r = string_of_range(&v, a, b);
        return r;
    }
    proof {
        // k is the longest fitting prefix.
        let f = fitting(t, MAX_LINE as nat);
        if f > k - a {
            lemma_utf8_len_mono(t.take(f as int), k - a + 1);
            assert(t.take(f as int).take(k - a + 1) =~= t.take(k - a + 1));
        }
        if f < k - a {
            lemma_utf8_len_mono(t.take(k - a), f + 1int);
            assert(t.take(k - a).take(f + 1int) =~= t.take(f + 1int));
        }
        assert(f == k - a);
        lemma_utf8_len_mono(t, k - a);
    }
    let mut r = string_of_range(&v, a, k);
    assert(v@.subrange(a as int, k as int) =~= t.take(k - a));
    push_char(&mut r, '\u{2026}');
    proof {
        assert(r@.drop_last() =~= t.take(k - a));
    }
    r
}

/// The lines of a text, as `str::lines` splits it: at `\\n`, with a `\\r`
/// just before it dropped, and no empty line after a final line ending.
pub open spec fn lines_of(s: Seq<char>) -> Seq<Seq<char>>
    decreases s.len(),
{
    if s.len() == 0 {
        Seq::empty()
    } else {
        let i = crate::config::index_of(s, '\n');
        proof {
            crate::config::lemma_index_of(s, '\n');
        }
        if i < s.len() {
            let line = s.take(i);
            let line = if line.len() > 0 && line.last() == '\r' {
                line.drop_last()
            } else {
                line
            };
            seq![line] + lines_of(s.skip(i + 1))
        } else {
            seq![s]
        }
    }
}

/// The lines of a text, as `str::lines` splits it.
pub fn split_lines(text: &str) -> (r: Vec<String>)
    ensures
        crate::config::strings_view(r@) == lines_of(text@),
{
    let v = chars_of(text);
    let mut out: Vec<String> = Vec::new();
    let mut pos: usize = 0;
    assert(v@.skip(0) =~= v@);
    while pos < v.len()
        invariant
            pos <= v.len(),
            v@ == text@,
            lines_of(text@) == crate::config::strings_view(out@) + lines_of(v@.skip(pos as int)),
        decreases v.len() - pos,
    {
        let ghost s = v@.skip(pos as int);
        let nl = crate::config::find_char_in(&v, pos, v.len(), '\n');
        assert(v@.subrange(pos as int, v.len() as int) =~= s);
        proof {
            crate::config::lemma_index_of(s, '\n');
        }
        let mut end = nl;
        if end > pos && v[end - 1] == '\r' && nl < v.len() {
            end = end - 1;
        }
        let line = string_of_range(&v, pos, end);
        let ghost lv = line@;
        proof {
            let i = nl - pos;
            if nl < v.len() {
                assert(s.take(i) =~= v@.subrange(pos as int, nl as int));
                if nl > pos && v@[nl - 1] == '\r' {
                    assert(s.take(i).drop_last() =~= v@.subrange(pos as int, end as int));
                } else {
                    assert(s.take(i) =~= v@.subrange(pos as int, end as int));
                }
                assert(s.skip(i + 1) =~= v@.skip(nl + 1));
                assert(lines_of(s) == seq![lv] + lines_of(v@.skip(nl + 1)));
            } else {
                assert(s =~= v@.subrange(pos as int, end as int));
                assert(v@.skip(v.len() as int) =~= Seq::<char>::empty());
                assert(lines_of(s) == seq![lv]);
            }
        }
        let ghost before = out@;
        out.push(line);
        proof {
            assert(crate::config::strings_view(out@) =~= crate::config::strings_view(before).push(lv));
        }
        pos = if nl < v.len() {
            nl + 1
        } else {
            v.len()
        };
        proof {
            if pos == v.len() {
                assert(v@.skip(pos as int) =~= Seq::<char>::empty());
            }
            assert(lines_of(text@) == crate::config::strings_view(out@) + lines_of(v@.skip(pos as int)));
        }
    }
    assert(v@.skip(pos as int) =~= Seq::<char>::empty());
    assert(crate::config::strings_view(out@) + Seq::<Seq<char>>::empty() =~= crate::config::strings_view(out@));
    out
}

// ---------------------------------------------------------------- queries

/// The search terms of a query: its whitespace-separated words, in lower case.
pub open spec fn terms_of(s: Seq<char>) -> Seq<Seq<char>>
    decreases s.len(),
{
    let t = crate::text::trim_start(s);
    proof {
        crate::text::lemma_lead_len(s);
    }
    if t.len() == 0 {
        Seq::empty()
    } else {
        let n = crate::markdown::builder::word_len(t);
        proof {
            lemma_word_len(t);
            crate::text::lemma_lead_len(s);
        }
        let w = lowercase(t.take(n as int));
        let rest = terms_of(t.skip(n as int));
        if w.len() > 0 {
            seq![w] + rest
        } else {
            rest
        }
    }
}

pub proof fn lemma_word_len(s: Seq<char>)
    ensures
        crate::markdown::builder::word_len(s) <= s.len(),
        s.len() > 0 && !is_space(s[0]) ==> crate::markdown::builder::word_len(s) > 0,
    decreases s.len(),
{
    if s.len() > 0 && !is_space(s[0]) {
        lemma_word_len(s.drop_first());
    }
}

pub open spec fn chars_view(v: Seq<Vec<char>>) -> Seq<Seq<char>> {
    v.map_values(|t: Vec<char>| t@)
}

/// The search terms of a query.
pub fn query_terms(query: &str) -> (r: Vec<Vec<char>>)
    ensures
        chars_view(r@) == terms_of(query@),
{
    let v = chars_of(query);
    let mut out: Vec<Vec<char>> = Vec::new();
    let mut pos: usize = 0;
    assert(v@.skip(0) =~= v@);
    loop
        invariant
            pos <= v.len(),
            v@ == query@,
            terms_of(query@) == chars_view(out@) + terms_of(v@.skip(pos as int)),
        decreases v.len() - pos,
    {
        let ghost s = v@.skip(pos as int);
        let (a, _) = trim_range(&v, pos, v.len());
        assert(v@.subrange(a as int, v.len() as int) =~= v@.skip(a as int));
        assert(v@.subrange(pos as int, v.len() as int) =~= s);
        assert(v@.subrange(a as int, v.len() as int) =~= v@.skip(a as int));
        if a == v.len() {
            assert(terms_of(s) =~= Seq::<Seq<char>>::empty());
            assert(chars_view(out@) + terms_of(s) =~= chars_view(out@));
            return out;
        }
        let mut b = a;
        while b < v.len() && !is_whitespace(v[b])
            invariant
                a <= b <= v.len(),
                forall|k: int| a <= k < b ==> !is_space(#[trigger] v@[k]),
            decreases v.len() - b,
        {
            b += 1;
        }
        assert(b > a);
        let ghost t = v@.skip(a as int);
        proof {
            assert forall|k: int| 0 <= k < b - a implies !is_space(#[trigger] t[k]) by {
                assert(t[k] == v@[a + k]);
            }
            if b < v.len() {
                assert(t[b - a] == v@[b as int]);
            }
            crate::markdown::builder::lemma_word_len_exact(t, b - a);
            assert(t.take(b - a) =~= v@.subrange(a as int, b as int));
            assert(t.skip(b - a) =~= v@.skip(b as int));
        }
        let word = string_of_range(&v, a, b);
        let lower = to_lowercase(word.as_str());
        let w = chars_of(lower.as_str());
        let ghost before = chars_view(out@);
        if w.len() > 0 {
            out.push(w);
            assert(chars_view(out@) =~= before.push(w@));
        }
        proof {
            let rest = terms_of(v@.skip(b as int));
            if w@.len() > 0 {
                assert(terms_of(s) == seq![w@] + rest);
                assert(before + terms_of(s) =~= chars_view(out@) + rest);
            } else {
                assert(terms_of(s) == rest);
            }
        }
        pos = b;
    }
}

/// Whether `needle` occurs in `hay` starting at `i`.
pub open spec fn occurs_at(hay: Seq<char>, needle: Seq<char>, i: int) -> bool {
    0 <= i && i + needle.len() <= hay.len() && hay.subrange(i, i + needle.len()) == needle
}

/// Whether `needle` occurs anywhere in `hay`.
pub open spec fn contains(hay: Seq<char>, needle: Seq<char>) -> bool {
    exists|i: int| occurs_at(hay, needle, i)
}

/// Whether a line holds every term, ignoring case.
pub open spec fn line_matches(line: Seq<char>, terms: Seq<Seq<char>>) -> bool {
    forall|j: int| 0 <= j < terms.len() ==> contains(lowercase(line), #[trigger] terms[j])
}

fn occurs_at_exec(hay: &Vec<char>, needle: &Vec<char>, i: usize) -> (r: bool)
    requires
        i + needle.len() <= hay.len(),
    ensures
        r == occurs_at(hay@, needle@, i as int),
{
    let mut k: usize = 0;
    while k < needle.len()
        invariant
            k <= needle.len(),
            i + needle.len() <= hay.len(),
            forall|j: int| 0 <= j < k ==> hay@[i + j] == needle@[j],
        decreases needle.len() - k,
    {
        if hay[i + k] != needle[k] {
            assert(hay@.subrange(i as int, i + needle.len())[k as int] != needle@[k as int]);
            return false;
        }
        k += 1;
    }
    assert(hay@.subrange(i as int, i + needle.len()) =~= needle@);
    true
}

/// Whether `needle` occurs in `hay`.
pub fn contains_exec(hay: &Vec<char>, needle: &Vec<char>) -> (r: bool)
    ensures
        r == contains(hay@, needle@),
{
    if needle.len() == 0 {
        assert(hay@.subrange(0, 0) =~= needle@);
        assert(occurs_at(hay@, needle@, 0));
        return true;
    }
    if needle.len() > hay.len() {
        return false;
    }
    let mut i: usize = 0;
    while i <= hay.len() - needle.len()
        invariant
            1 <= needle.len() <= hay.len(),
            i <= hay.len() - needle.len() + 1,
            forall|j: int| 0 <= j < i ==> !occurs_at(hay@, needle@, j),
        decreases hay.len() - i,
    {
        if occurs_at_exec(hay, needle, i) {
            return true;
        }
        i += 1;
    }
    false
}

/// Whether `line` holds every term, ignoring case.
pub fn matches_terms(line: &str, terms: &Vec<Vec<char>>) -> (r: bool)
    ensures
        r == line_matches(line@, chars_view(terms@)),
{
    let lower = to_lowercase(line);
    let hay = chars_of(lower.as_str());
    let mut j: usize = 0;
    while j < terms.len()
        invariant
            j <= terms.len(),
            hay@ == lowercase(line@),
            forall|k: int| 0 <= k < j ==> contains(lowercase(line@), #[trigger] chars_view(terms@)[k]),
        decreases terms.len() - j,
    {
        if !contains_exec(&hay, &terms[j]) {
            assert(chars_view(terms@)[j as int] == terms@[j as int]@);
            return false;
        }
        j += 1;
    }
    true
}

/// Lines of a text that hold every term, with their one-based numbers, as
/// they are shown.
pub open spec fn hit_lines(lines: Seq<Seq<char>>, terms: Seq<Seq<char>>) -> Seq<(int, Seq<char>)>
    decreases lines.len(),
{
    if lines.len() == 0 {
        Seq::empty()
    } else {
        let prev = hit_lines(lines.drop_last(), terms);
        if line_matches(lines.last(), terms) {
            prev.push((lines.len() as int, elided(lines.last())))
        } else {
            prev
        }
    }
}

pub open spec fn hits_view(hits: Seq<Hit>) -> Seq<(int, Seq<char>)> {
    hits.map_values(|h: Hit| (h.line as int, h.text@))
}

pub proof fn lemma_hit_lines_len(lines: Seq<Seq<char>>, terms: Seq<Seq<char>>)
    ensures
        hit_lines(lines, terms).len() <= lines.len(),
    decreases lines.len(),
{
    if lines.len() > 0 {
        lemma_hit_lines_len(lines.drop_last(), terms);
    }
}

pub proof fn lemma_lines_len(s: Seq<char>)
    ensures
        lines_of(s).len() <= s.len(),
    decreases s.len(),
{
    if s.len() > 0 {
        crate::config::lemma_index_of(s, '\n');
        let i = crate::config::index_of(s, '\n');
        if i < s.len() {
            lemma_lines_len(s.skip(i + 1));
        }
    }
}

/// Every hit of `hits` is in the file at `path`, shown as `display`.
pub open spec fn all_in_file(hits: Seq<Hit>, path: Seq<char>, display: Seq<char>) -> bool {
    forall|k: int| 0 <= k < hits.len() ==> #[trigger] hits[k].path@ == path && hits[k].display@ == display
}

proof fn lemma_all_in_file_push(hits: Seq<Hit>, hit: Hit, path: Seq<char>, display: Seq<char>)
    requires
        all_in_file(hits, path, display),
        hit.path@ == path,
        hit.display@ == display,
    ensures
        all_in_file(hits.push(hit), path, display),
{
    assert forall|k: int| 0 <= k < hits.push(hit).len() implies #[trigger] hits.push(hit)[k].path@ == path
        && hits.push(hit)[k].display@ == display by {
        if k < hits.len() {
            assert(hits.push(hit)[k] == hits[k]);
        }
    }
}

/// The hits of one file: its first `budget` lines that hold every term.
pub fn scan_hits(path: &str, display: &str, text: &str, terms: &Vec<Vec<char>>, budget: usize) -> (r: Vec<Hit>)
    requires
        text@.len() < u32::MAX,
    ensures
        hits_view(r@) == ({
            let all = hit_lines(lines_of(text@), chars_view(terms@));
            if all.len() > budget {
                all.take(budget as int)
            } else {
                all
            }
        }),
        all_in_file(r@, path@, display@),
{
    let v = chars_of(text);
    let ghost tv = chars_view(terms@);
    let ghost all_lines = lines_of(text@);
    let mut out: Vec<Hit> = Vec::new();
    let mut pos: usize = 0;
    let mut count: usize = 0;
    let ghost mut done: Seq<Seq<char>> = Seq::empty();
    assert(v@.skip(0) =~= v@);
    proof {
        lemma_lines_len(text@);
    }
    while pos < v.len()
        invariant
            pos <= v.len() == text@.len(),
            text@.len() < u32::MAX,
            v@ == text@,
            tv == chars_view(terms@),
            all_lines == lines_of(text@),
            all_lines == done + lines_of(v@.skip(pos as int)),
            count == done.len(),
            count <= pos,
            out@.len() <= budget,
            hits_view(out@) == ({
                let h = hit_lines(done, tv);
                if h.len() > budget {
                    h.take(budget as int)
                } else {
                    h
                }
            }),
            all_in_file(out@, path@, display@),
        decreases v.len() - pos,
    {
        let ghost s = v@.skip(pos as int);
        let nl = crate::config::find_char_in(&v, pos, v.len(), '\n');
        assert(v@.subrange(pos as int, v.len() as int) =~= s);
        proof {
            crate::config::lemma_index_of(s, '\n');
        }
        let mut end = nl;
        if end > pos && v[end - 1] == '\r' && nl < v.len() {
            end = end - 1;
        }
        let line = string_of_range(&v, pos, end);
        let ghost lv = line@;
        proof {
            let i = nl - pos;
            if nl < v.len() {
                assert(s.take(i) =~= v@.subrange(pos as int, nl as int));
                if nl > pos && v@[nl - 1] == '\r' {
                    assert(s.take(i).drop_last() =~= v@.subrange(pos as int, end as int));
                } else {
                    assert(s.take(i) =~= v@.subrange(pos as int, end as int));
                }
                assert(s.skip(i + 1) =~= v@.skip(nl + 1));
                assert(lines_of(s) == seq![lv] + lines_of(v@.skip(nl + 1)));
            } else {
                assert(s =~= v@.subrange(pos as int, end as int));
                assert(v@.skip(v.len() as int) =~= Seq::<char>::empty());
                assert(lines_of(s) == seq![lv]);
            }
        }
        let ghost prev_done = done;
        proof {
            done = done.push(lv);
            assert(done.drop_last() =~= prev_done);
        }
        count += 1;
        assert(count < u32::MAX);
        if out.len() < budget && matches_terms(line.as_str(), terms) {
            let ghost before = hits_view(out@);
            let ghost kept = out@;
            let hit = Hit {
                path: path.to_owned(),
                display: display.to_owned(),
                line: count as u32,
                text: elide(line.as_str()),
            };
            proof {
                lemma_all_in_file_push(kept, hit, path@, display@);
            }
            out.push(hit);
            assert(hits_view(out@) =~= before.push((count as int, elided(lv))));
        }
        proof {
            let h0 = hit_lines(prev_done, tv);
            let h1 = hit_lines(done, tv);
            if line_matches(lv, tv) {
                assert(h1 == h0.push((done.len() as int, elided(lv))));
                if h0.len() >= budget {
                    assert(h1.take(budget as int) =~= h0.take(budget as int));
                }
            } else {
                assert(h1 == h0);
            }
        }
        pos = if nl < v.len() {
            nl + 1
        } else {
            v.len()
        };
        proof {
            if nl < v.len() {
                assert(all_lines =~= done + lines_of(v@.skip(pos as int)));
            } else {
                assert(v@.skip(pos as int) =~= Seq::<char>::empty());
                assert(all_lines =~= done);
            }
        }
    }
    assert(v@.skip(pos as int) =~= Seq::<char>::empty());
    assert(all_lines =~= done);
    out
}


// ---------------------------------------------------------------- streaming

/// The hits of a file whose contents are `bytes`: decoded as UTF-8 with
/// invalid sequences replaced, then scanned as [`scan_hits`] scans a text. A
/// text too long to number its lines in a `u32` gives none.
pub fn file_hits(path: &str, display: &str, bytes: &[u8], terms: &Vec<Vec<char>>, budget: usize) -> (r: Vec<Hit>)
    ensures
        utf8_lossy(bytes@).len() < u32::MAX ==> hits_view(r@) == ({
            let all = hit_lines(lines_of(utf8_lossy(bytes@)), chars_view(terms@));
            if all.len() > budget {
                all.take(budget as int)
            } else {
                all
            }
        }),
        utf8_lossy(bytes@).len() >= u32::MAX ==> r@.len() == 0,
        all_in_file(r@, path@, display@),
{
    let text = decode_lossy(bytes);
    let count = chars_of(text.as_str()).len();
    if count >= 4294967295 {
        let none: Vec<Hit> = Vec::new();
        assert(all_in_file(none@, path@, display@));
        return none;
    }
    scan_hits(path, display, text.as_str(), terms, budget)
}

/// How much of a file is sniffed for a NUL before its content is searched.
pub const CONTENT_SNIFF: usize = 1024;

/// Whether a file of `len` bytes is searched for content at all.
pub fn searchable_size(len: u64) -> (r: bool)
    ensures
        r == (len <= MAX_SEARCH_BYTES),
{
    len <= MAX_SEARCH_BYTES
}

/// Whether the first [`CONTENT_SNIFF`] bytes of a file hold a NUL; such a
/// file is taken for binary and not searched.
pub fn binary_prefix(bytes: &[u8]) -> (r: bool)
    ensures
        r == exists|i: int| 0 <= i < bytes@.len() && i < CONTENT_SNIFF && bytes@[i] == 0,
{
    let limit = if bytes.len() < CONTENT_SNIFF {
        bytes.len()
    } else {
        CONTENT_SNIFF
    };
    let mut i: usize = 0;
    while i < limit
        invariant
            i <= limit <= bytes@.len(),
            limit <= CONTENT_SNIFF,
            limit == bytes@.len() || limit == CONTENT_SNIFF,
            forall|k: int| 0 <= k < i ==> bytes@[k] != 0,
        decreases limit - i,
    {
        if bytes[i] == 0 {
            return true;
        }
        i += 1;
    }
    false
}

/// `path` as shown in the palette: relative to the vault root.
pub fn relative(root: &str, path: &str) -> (r: Option<String>)
    ensures
        r matches Some(s) && s@ == path_relative(root@, path@),
{
    Some(relative_to(root, path))
}

/// Whether the index already holds `path`, compared component by
/// component. A changed path it does not hold means the vault gained or lost
/// something, and the index and the tree are both stale.
pub fn indexes(files: &Vec<FileEntry>, path: &str) -> (r: bool)
    ensures
        r == exists|i: int| 0 <= i < files@.len() && path_key(#[trigger] files@[i].path@) == path_key(path@),
{
    let key = path_key_of(path);
    let mut i: usize = 0;
    while i < files.len()
        invariant
            i <= files@.len(),
            key@ == path_key(path@),
            forall|j: int| 0 <= j < i ==> path_key(#[trigger] files@[j].path@) != path_key(path@),
        decreases files@.len() - i,
    {
        let entry = path_key_of(files[i].path.as_str());
        if crate::config::str_eq(entry.as_str(), key.as_str()) {
            return true;
        }
        i = i + 1;
    }
    false
}

/// A message as the contracts see it.
pub enum MessageView {
    Files { generation: u64, entries: Seq<FileEntry>, done: bool },
    Hits { generation: u64, hits: Seq<Hit>, done: bool },
}

impl View for Message {
    type V = MessageView;

    open spec fn view(&self) -> MessageView {
        match self {
            Message::Files { generation, entries, done } => MessageView::Files {
                generation: *generation,
                entries: entries@,
                done: *done,
            },
            Message::Hits { generation, hits, done } => MessageView::Hits {
                generation: *generation,
                hits: hits@,
                done: *done,
            },
        }
    }
}

pub open spec fn messages_view(ms: Seq<Message>) -> Seq<MessageView> {
    ms.map_values(|m: Message| m@)
}

/// How many of `files` are files rather than folders.
pub open spec fn file_count(files: Seq<FileEntry>) -> nat
    decreases files.len(),
{
    if files.len() == 0 {
        0
    } else {
        file_count(files.drop_last()) + if files.last().is_dir {
            0nat
        } else {
            1nat
        }
    }
}

/// The status bar's count: still indexing, or how many files the vault has.
pub open spec fn count_label(files: Seq<FileEntry>, indexing: bool) -> Seq<char> {
    if indexing {
        "indexing\u{2026}"@
    } else {
        decimal(file_count(files) as u64) + if file_count(files) == 1 {
            " file"@
        } else {
            " files"@
        }
    }
}

/// The count shown in the status bar.
pub fn count_text(files: &Vec<FileEntry>, indexing: bool) -> (r: String)
    ensures
        r@ == count_label(files@, indexing),
{
    if indexing {
        return "indexing\u{2026}".to_owned();
    }
    let mut n: usize = 0;
    let mut i: usize = 0;
    while i < files.len()
        invariant
            i <= files@.len(),
            n == file_count(files@.take(i as int)),
            n <= i,
        decreases files@.len() - i,
    {
        assert(files@.take(i + 1).drop_last() =~= files@.take(i as int));
        if !files[i].is_dir {
            n = n + 1;
        }
        i = i + 1;
    }
    assert(files@.take(i as int) =~= files@);
    let mut out = String::new();
    push_decimal(&mut out, n as u64);
    if n == 1 {
        append(&mut out, " file");
    } else {
        append(&mut out, " files");
    }
    out
}

/// What the index and the content search have delivered so far, and which
/// request each is waiting on.
pub struct Results {
    pub files: Vec<FileEntry>,
    /// The index walk whose entries are kept; older walks are ignored.
    pub files_generation: u64,
    pub indexing: bool,
    pub hits: Vec<Hit>,
    /// The search whose hits are kept; older searches are ignored.
    pub hits_generation: u64,
    pub searching: bool,
}

impl Results {
    pub fn new() -> (r: Results)
        ensures
            r.files@.len() == 0,
            r.hits@.len() == 0,
            r.files_generation == 0,
            r.hits_generation == 0,
            !r.indexing,
            !r.searching,
    {
        Results {
            files: Vec::new(),
            files_generation: 0,
            indexing: false,
            hits: Vec::new(),
            hits_generation: 0,
            searching: false,
        }
    }

    /// Takes in one message from the worker. A message from a request that
    /// has since been superseded changes nothing; one from the current
    /// request adds its entries or hits, and says whether more are coming.
    pub fn receive(&mut self, message: Message)
        ensures
            match message@ {
                MessageView::Files { generation, entries, done } => if generation == old(self).files_generation {
                    &&& final(self).files@ == old(self).files@ + entries
                    &&& final(self).indexing == !done
                    &&& final(self).hits@ == old(self).hits@
                    &&& final(self).searching == old(self).searching
                    &&& final(self).files_generation == old(self).files_generation
                    &&& final(self).hits_generation == old(self).hits_generation
                } else {
                    *final(self) == *old(self)
                },
                MessageView::Hits { generation, hits, done } => if generation == old(self).hits_generation {
                    &&& final(self).hits@ == old(self).hits@ + hits
                    &&& final(self).searching == !done
                    &&& final(self).files@ == old(self).files@
                    &&& final(self).indexing == old(self).indexing
                    &&& final(self).files_generation == old(self).files_generation
                    &&& final(self).hits_generation == old(self).hits_generation
                } else {
                    *final(self) == *old(self)
                },
            },
    {
        match message {
            Message::Files { generation, entries, done } => {
                if generation != self.files_generation {
                    return;
                }
                let mut entries = entries;
                self.files.append(&mut entries);
                self.indexing = !done;
            },
            Message::Hits { generation, hits, done } => {
                if generation != self.hits_generation {
                    return;
                }
                let mut hits = hits;
                self.hits.append(&mut hits);
                self.searching = !done;
            },
        }
    }
}

/// The entries found by an index walk, batched for the UI.
pub struct FileStream {
    pub generation: u64,
    batch: Vec<FileEntry>,
    total: usize,
}

/// An index walk as the contracts see it.
pub struct FileStreamView {
    pub generation: u64,
    pub batch: Seq<FileEntry>,
    pub total: nat,
}

impl View for FileStream {
    type V = FileStreamView;

    closed spec fn view(&self) -> FileStreamView {
        FileStreamView { generation: self.generation, batch: self.batch@, total: self.total as nat }
    }
}

impl FileStream {
    pub fn new(generation: u64) -> (r: FileStream)
        ensures
            r@ == (FileStreamView { generation, batch: Seq::empty(), total: 0 }),
    {
        FileStream { generation, batch: Vec::new(), total: 0 }
    }

    /// Takes one entry found by the walk. Returns a batch to send when one
    /// is full, and whether the walk has found enough.
    pub fn push(&mut self, entry: FileEntry) -> (r: (Option<Message>, bool))
        requires
            old(self)@.total < MAX_ENTRIES,
        ensures
            ({
                let v = old(self)@;
                let all = v.batch.push(entry);
                &&& final(self)@.generation == v.generation
                &&& final(self)@.total == v.total + 1
                &&& r.1 == (v.total + 1 >= MAX_ENTRIES)
                &&& if all.len() >= BATCH {
                    &&& r.0 matches Some(m) && m@ == (MessageView::Files { generation: v.generation, entries: all, done: false })
                    &&& final(self)@.batch == Seq::<FileEntry>::empty()
                } else {
                    &&& r.0 is None
                    &&& final(self)@.batch == all
                }
            }),
    {
        self.batch.push(entry);
        self.total = self.total + 1;
        let message = if self.batch.len() >= BATCH {
            let mut full: Vec<FileEntry> = Vec::new();
            std::mem::swap(&mut full, &mut self.batch);
            Some(Message::Files { generation: self.generation, entries: full, done: false })
        } else {
            None
        };
        (message, self.total >= MAX_ENTRIES)
    }

    /// The last batch, which ends the walk.
    pub fn finish(self) -> (r: Message)
        ensures
            r@ == (MessageView::Files { generation: self@.generation, entries: self@.batch, done: true }),
    {
        Message::Files { generation: self.generation, entries: self.batch, done: true }
    }
}

/// The hits found by a content search, batched for the UI.
pub struct HitStream {
    pub generation: u64,
    pending: Vec<Hit>,
    sent: usize,
}

/// A content search as the contracts see it.
pub struct HitStreamView {
    pub generation: u64,
    pub pending: Seq<Hit>,
    pub sent: nat,
}

impl View for HitStream {
    type V = HitStreamView;

    closed spec fn view(&self) -> HitStreamView {
        HitStreamView { generation: self.generation, pending: self.pending@, sent: self.sent as nat }
    }
}

impl HitStream {
    pub fn new(generation: u64) -> (r: HitStream)
        ensures
            r@ == (HitStreamView { generation, pending: Seq::empty(), sent: 0 }),
    {
        HitStream { generation, pending: Vec::new(), sent: 0 }
    }

    /// How many more hits the search takes.
    pub fn remaining(&self) -> (r: usize)
        requires
            self@.sent <= MAX_HITS,
        ensures
            r == MAX_HITS - self@.sent,
    {
        MAX_HITS - self.sent
    }

    /// Takes one hit. Returns the messages to send now (a full batch, and
    /// the last one when the search has found enough), and whether it has.
    pub fn push(&mut self, hit: Hit) -> (r: (Vec<Message>, bool))
        requires
            old(self)@.sent < MAX_HITS,
        ensures
            ({
                let v = old(self)@;
                let all = v.pending.push(hit);
                let (kept, first) = if all.len() >= HIT_BATCH {
                    (Seq::<Hit>::empty(), seq![MessageView::Hits { generation: v.generation, hits: all, done: false }])
                } else {
                    (all, Seq::<MessageView>::empty())
                };
                &&& final(self)@.generation == v.generation
                &&& final(self)@.sent == v.sent + 1
                &&& r.1 == (v.sent + 1 >= MAX_HITS)
                &&& if v.sent + 1 >= MAX_HITS {
                    &&& messages_view(r.0@) == first.push(MessageView::Hits { generation: v.generation, hits: kept, done: true })
                    &&& final(self)@.pending == Seq::<Hit>::empty()
                } else {
                    &&& messages_view(r.0@) == first
                    &&& final(self)@.pending == kept
                }
            }),
    {
        self.pending.push(hit);
        self.sent = self.sent + 1;
        let mut out: Vec<Message> = Vec::new();
        if self.pending.len() >= HIT_BATCH {
            let mut full: Vec<Hit> = Vec::new();
            std::mem::swap(&mut full, &mut self.pending);
            out.push(Message::Hits { generation: self.generation, hits: full, done: false });
        }
        let over = self.sent >= MAX_HITS;
        if over {
            let mut rest: Vec<Hit> = Vec::new();
            std::mem::swap(&mut rest, &mut self.pending);
            out.push(Message::Hits { generation: self.generation, hits: rest, done: true });
        }
        proof {
            assert(messages_view(out@) =~= out@.map_values(|m: Message| m@));
        }
        (out, over)
    }

    /// The last message of a search that ran out of files.
    pub fn finish(self) -> (r: Message)
        ensures
            r@ == (MessageView::Hits { generation: self@.generation, hits: self@.pending, done: true }),
    {
        Message::Hits { generation: self.generation, hits: self.pending, done: true }
    }
}

} // verus!
