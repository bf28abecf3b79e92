//! Paths as strings, and the few `std::path` queries the library makes.

use std::path::Path;

use vstd::prelude::*;

use crate::text::chars_of;

verus! {

/// The final component of a path, as `Path::file_name` finds it.
pub uninterp spec fn path_file_name(path: Seq<char>) -> Option<Seq<char>>;

/// The path without its final component, as `Path::parent` finds it.
pub uninterp spec fn path_parent(path: Seq<char>) -> Option<Seq<char>>;

/// Whether `base` is a prefix of `path`, component by component, as
/// `Path::starts_with` decides it.
pub uninterp spec fn path_starts_with(path: Seq<char>, base: Seq<char>) -> bool;

/// `path` relative to `root`, as `Path::strip_prefix` leaves it, or the
/// whole of `path` when it is not under `root`.
pub uninterp spec fn path_relative(root: Seq<char>, path: Seq<char>) -> Seq<char>;

/// A string in lower case, as `str::to_lowercase` gives it.
pub uninterp spec fn lowercase(s: Seq<char>) -> Seq<char>;

pub open spec fn opt_seq(s: Option<String>) -> Option<Seq<char>> {
    match s {
        Some(t) => Some(t@),
        None => None,
    }
}

/// `Path::file_name` of `path`.
#[verifier::external_body]
pub(crate) fn file_name(path: &str) -> (r: Option<String>)
    ensures
        opt_seq(r) == path_file_name(path@),
{
    Path::new(path).file_name().map(|n| n.to_string_lossy().into_owned())
}

/// `Path::parent` of `path`. A parent is the path without its final
/// component, so it is always shorter than the path.
#[verifier::external_body]
pub(crate) fn parent(path: &str) -> (r: Option<String>)
    ensures
        opt_seq(r) == path_parent(path@),
        r matches Some(p) ==> p@.len() < path@.len(),
{
    Path::new(path).parent().map(|p| p.to_string_lossy().into_owned())
}

/// `Path::starts_with`: whether `base` is a leading run of `path`'s components.
#[verifier::external_body]
pub(crate) fn starts_with(path: &str, base: &str) -> (r: bool)
    ensures
        r == path_starts_with(path@, base@),
{
    Path::new(path).starts_with(base)
}

/// `Path::strip_prefix` of `path` by `root`, the whole of `path` where it
/// fails, as a string. Claimed: the result is named by `path_relative`, and,
/// as `strip_prefix` fails exactly when `root` is not a leading run of
/// `path`'s components, a path outside `root` comes back unchanged (it was a
/// `str`, so the lossy conversion changes nothing).
#[verifier::external_body]
pub(crate) fn relative_to(root: &str, path: &str) -> (r: String)
    ensures
        r@ == path_relative(root@, path@),
        !path_starts_with(path@, root@) ==> r@ == path@,
{
    let p = Path::new(path);
    p.strip_prefix(root).unwrap_or(p).to_string_lossy().into_owned()
}

/// `str::to_lowercase`.
#[verifier::external_body]
pub(crate) fn to_lowercase(s: &str) -> (r: String)
    ensures
        r@ == lowercase(s@),
{
    s.to_lowercase()
}

/// Index of the last occurrence of `c` in `s`, if any.
pub open spec fn last_index_of(s: Seq<char>, c: char) -> Option<int>
    decreases s.len(),
{
    if s.len() == 0 {
        None
    } else if s.last() == c {
        Some(s.len() - 1)
    } else {
        last_index_of(s.drop_last(), c)
    }
}

pub proof fn lemma_last_index_of(s: Seq<char>, c: char)
    ensures
        match last_index_of(s, c) {
            Some(i) => 0 <= i < s.len() && s[i] == c && forall|k: int| i < k < s.len() ==> s[k] != c,
            None => forall|k: int| 0 <= k < s.len() ==> s[k] != c,
        },
    decreases s.len(),
{
    if s.len() > 0 && s.last() != c {
        let t = s.drop_last();
        lemma_last_index_of(t, c);
        assert forall|k: int| 0 <= k < t.len() implies t[k] == s[k] by {}
        match last_index_of(t, c) {
            Some(i) => {
                assert forall|k: int| i < k < s.len() implies s[k] != c by {
                    if k < t.len() {
                        assert(t[k] == s[k]);
                    }
                }
            },
            None => {
                assert forall|k: int| 0 <= k < s.len() implies s[k] != c by {
                    if k < t.len() {
                        assert(t[k] == s[k]);
                    }
                }
            },
        }
    }
}

/// Finds the last `c` in `v`.
pub fn rfind(v: &Vec<char>, c: char) -> (r: Option<usize>)
    ensures
        match r {
            Some(i) => last_index_of(v@, c) == Some(i as int),
            None => last_index_of(v@, c) is None,
        },
{
    let mut i = v.len();
    assert(v@.take(i as int) =~= v@);
    while i > 0
        invariant
            i <= v.len(),
            last_index_of(v@, c) == last_index_of(v@.take(i as int), c),
        decreases i,
    {
        assert(v@.take(i as int).last() == v@[i - 1]);
        if v[i - 1] == c {
            return Some(i - 1);
        }
        assert(v@.take(i as int).drop_last() =~= v@.take(i - 1));
        i -= 1;
    }
    None
}

/// The extension of a file name: the part after its final `.`, unless the
/// name has no `.` past its first character.
pub open spec fn name_extension(name: Seq<char>) -> Option<Seq<char>> {
    match last_index_of(name, '.') {
        Some(d) => if d > 0 {
            Some(name.skip(d + 1))
        } else {
            None
        },
        None => None,
    }
}

/// `Path::extension`, as its documentation defines it from the file name.
pub open spec fn path_extension(path: Seq<char>) -> Option<Seq<char>> {
    match path_file_name(path) {
        Some(name) => name_extension(name),
        None => None,
    }
}

/// The extension of `path`, if it has one.
pub fn extension(path: &str) -> (r: Option<String>)
    ensures
        opt_seq(r) == path_extension(path@),
{
    match file_name(path) {
        None => None,
        Some(name) => {
            let v = chars_of(name.as_str());
            match rfind(&v, '.') {
                Some(d) => {
                    if d > 0 {
                        proof {
                            lemma_last_index_of(v@, '.');
                        }
                        assert(v@.subrange(d + 1, v.len() as int) =~= v@.skip(d + 1));
                        Some(crate::text::string_of_range(&v, d + 1, v.len()))
                    } else {
                        None
                    }
                },
                None => None,
            }
        },
    }
}

/// The stem of a file name: all of it when it has no `.` past its first
/// character, else the part before its final `.`.
pub open spec fn name_stem(name: Seq<char>) -> Seq<char> {
    match last_index_of(name, '.') {
        Some(d) => if d > 0 {
            name.take(d)
        } else {
            name
        },
        None => name,
    }
}

/// `Path::file_stem`, as its documentation defines it from the file name.
pub open spec fn path_stem(path: Seq<char>) -> Option<Seq<char>> {
    match path_file_name(path) {
        Some(name) => Some(name_stem(name)),
        None => None,
    }
}

/// The stem of `path`'s file name, if it has a file name.
pub fn file_stem(path: &str) -> (r: Option<String>)
    ensures
        opt_seq(r) == path_stem(path@),
{
    match file_name(path) {
        None => None,
        Some(name) => {
            let v = chars_of(name.as_str());
            match rfind(&v, '.') {
                Some(d) => {
                    if d > 0 {
                        proof {
                            lemma_last_index_of(v@, '.');
                        }
                        assert(v@.subrange(0, d as int) =~= v@.take(d as int));
                        Some(crate::text::string_of_range(&v, 0, d))
                    } else {
                        Some(name)
                    }
                },
                None => Some(name),
            }
        },
    }
}

/// The file name of `path`, or the whole path when it has none.
pub open spec fn name_or_path(path: Seq<char>) -> Seq<char> {
    match path_file_name(path) {
        Some(n) => n,
        None => path,
    }
}

/// The name a path is shown by.
pub fn name_of(path: &str) -> (r: String)
    ensures
        r@ == name_or_path(path@),
{
    match file_name(path) {
        Some(n) => n,
        None => path.to_owned(),
    }
}

// ------------------------------------------------------------ path equality

/// The pieces of a path between its separators, in order; a path without a
/// separator is one piece.
pub open spec fn pieces(p: Seq<char>) -> Seq<Seq<char>>
    decreases p.len(),
{
    if p.len() == 0 {
        seq![Seq::<char>::empty()]
    } else {
        let q = pieces(p.drop_last());
        if p.last() == '/' {
            q.push(Seq::empty())
        } else {
            q.update(q.len() - 1, q.last().push(p.last()))
        }
    }
}

/// A piece that names a component: not empty (a repeated or trailing
/// separator) and not `.`.
pub open spec fn names_part(s: Seq<char>) -> bool {
    s.len() > 0 && s != "."@
}

/// The pieces that name components, in order.
pub open spec fn kept_parts(ps: Seq<Seq<char>>) -> Seq<Seq<char>>
    decreases ps.len(),
{
    if ps.len() == 0 {
        ps
    } else if names_part(ps.last()) {
        kept_parts(ps.drop_last()).push(ps.last())
    } else {
        kept_parts(ps.drop_last())
    }
}

/// `parts` joined by `/`.
pub open spec fn slash_joined(parts: Seq<Seq<char>>) -> Seq<char>
    decreases parts.len(),
{
    if parts.len() == 0 {
        Seq::empty()
    } else if parts.len() == 1 {
        parts[0]
    } else {
        slash_joined(parts.drop_last()).push('/') + parts.last()
    }
}

/// A path's components as `Path::components` documents them on Unix, written
/// out one way: a root if it starts with `/`, a leading `.` if its first piece
/// is `.`, and then its other components, where repeated separators, a
/// trailing separator and any later `.` are not components. `Path`'s `==`
/// compares components, so two paths are the same path exactly when their
/// keys are equal.
pub open spec fn path_key(p: Seq<char>) -> Seq<char> {
    let parts = kept_parts(pieces(p));
    if p.len() > 0 && p[0] == '/' {
        seq!['/'] + slash_joined(parts)
    } else if p.len() > 0 && p[0] == '.' && (p.len() == 1 || p[1] == '/') {
        if parts.len() == 0 {
            seq!['.']
        } else {
            seq!['.', '/'] + slash_joined(parts)
        }
    } else {
        slash_joined(parts)
    }
}

pub proof fn lemma_pieces_len(p: Seq<char>)
    ensures
        pieces(p).len() >= 1,
    decreases p.len(),
{
    if p.len() > 0 {
        lemma_pieces_len(p.drop_last());
    }
}

fn names_part_exec(s: &Vec<char>) -> (r: bool)
    ensures
        r == names_part(s@),
{
    proof {
        reveal_strlit(".");
    }
    if s.len() == 0 {
        return false;
    }
    if s.len() == 1 && s[0] == '.' {
        assert(s@ =~= "."@);
        return false;
    }
    assert(s@.len() != 1 || s@[0] != '.');
    true
}

/// The key of a path: its components, written out one way.
pub fn path_key_of(path: &str) -> (r: String)
    ensures
        r@ == path_key(path@),
{
    let v = chars_of(path);
    let mut done: Vec<Vec<char>> = Vec::new();
    let mut cur: Vec<char> = Vec::new();
    let mut i: usize = 0;
    proof {
        assert(v@.take(0) =~= Seq::<char>::empty());
        assert(pieces(Seq::<char>::empty()).drop_last() =~= Seq::<Seq<char>>::empty());
        assert(crate::index::chars_view(done@) =~= Seq::<Seq<char>>::empty());
    }
    while i < v.len()
        invariant
            i <= v@.len(),
            v@ == path@,
            crate::index::chars_view(done@) == kept_parts(pieces(v@.take(i as int)).drop_last()),
            cur@ == pieces(v@.take(i as int)).last(),
        decreases v@.len() - i,
    {
        let ghost t = v@.take(i as int);
        let ghost t1 = v@.take(i + 1);
        proof {
            lemma_pieces_len(t);
            assert(t1.drop_last() =~= t);
            assert(t1.last() == v@[i as int]);
        }
        if v[i] == '/' {
            proof {
                let q = pieces(t);
                assert(pieces(t1) == q.push(Seq::<char>::empty()));
                assert(pieces(t1).drop_last() =~= q);
                assert(q.drop_last().push(q.last()) =~= q);
            }
            if names_part_exec(&cur) {
                let ghost before = done@;
                done.push(cur);
                proof {
                    assert(crate::index::chars_view(done@) =~= crate::index::chars_view(before).push(pieces(t).last()));
                }
            }
            cur = Vec::new();
            proof {
                assert(pieces(t1).last() =~= Seq::<char>::empty());
            }
        } else {
            cur.push(v[i]);
            proof {
                let q = pieces(t);
                assert(pieces(t1) == q.update(q.len() - 1, q.last().push(v@[i as int])));
                assert(pieces(t1).drop_last() =~= q.drop_last());
            }
        }
        i += 1;
    }
    proof {
        let t = v@.take(i as int);
        assert(t =~= path@);
        lemma_pieces_len(t);
        assert(pieces(t).drop_last().push(pieces(t).last()) =~= pieces(t));
    }
    if names_part_exec(&cur) {
        let ghost before = done@;
        done.push(cur);
        proof {
            assert(crate::index::chars_view(done@) =~= crate::index::chars_view(before).push(pieces(path@).last()));
        }
    }
    let ghost parts = kept_parts(pieces(path@));
    assert(crate::index::chars_view(done@) == parts);
    let mut out = String::new();
    let rooted = v.len() > 0 && v[0] == '/';
    let dotted = !rooted && v.len() > 0 && v[0] == '.' && (v.len() == 1 || v[1] == '/');
    if rooted {
        crate::text::push_char(&mut out, '/');
    } else if dotted {
        crate::text::push_char(&mut out, '.');
        if done.len() > 0 {
            crate::text::push_char(&mut out, '/');
        }
    }
    let ghost head = out@;
    let mut k: usize = 0;
    assert(parts.take(0) =~= Seq::<Seq<char>>::empty());
    assert(head + slash_joined(Seq::<Seq<char>>::empty()) =~= head);
    while k < done.len()
        invariant
            k <= done@.len(),
            crate::index::chars_view(done@) == parts,
            out@ == head + slash_joined(parts.take(k as int)),
        decreases done@.len() - k,
    {
        let ghost before = out@;
        if k > 0 {
            crate::text::push_char(&mut out, '/');
        }
        let part = &done[k];
        assert(part@ == parts[k as int]);
        let mut j: usize = 0;
        let ghost mid = out@;
        assert(mid + part@.take(0) =~= mid);
        while j < part.len()
            invariant
                j <= part@.len(),
                out@ == mid + part@.take(j as int),
            decreases part@.len() - j,
        {
            crate::text::push_char(&mut out, part[j]);
            assert(mid + part@.take(j + 1) =~= (mid + part@.take(j as int)).push(part@[j as int]));
            j += 1;
        }
        proof {
            assert(part@.take(part@.len() as int) =~= part@);
            let tk = parts.take(k + 1);
            assert(tk.drop_last() =~= parts.take(k as int));
            assert(tk.last() == parts[k as int]);
            if k == 0 {
                assert(tk =~= seq![parts[0]]);
                assert(slash_joined(tk) == parts[0]);
                assert(slash_joined(parts.take(0)) =~= Seq::<char>::empty());
                assert(out@ =~= head + slash_joined(tk));
            } else {
                assert(slash_joined(tk) == slash_joined(parts.take(k as int)).push('/') + parts[k as int]);
                assert(out@ =~= head + slash_joined(tk));
            }
        }
        k += 1;
    }
    assert(parts.take(parts.len() as int) =~= parts);
    proof {
        if rooted {
            assert(out@ =~= seq!['/'] + slash_joined(parts));
        } else if dotted {
            if parts.len() == 0 {
                assert(out@ =~= seq!['.']);
            } else {
                assert(out@ =~= seq!['.', '/'] + slash_joined(parts));
            }
        } else {
            assert(out@ =~= slash_joined(parts));
        }
    }
    out
}

/// Whether two paths are the same path, component by component, as `Path`'s
/// `==` compares them.
pub fn same_path(a: &str, b: &str) -> (r: bool)
    ensures
        r == (path_key(a@) == path_key(b@)),
{
    let x = path_key_of(a);
    let y = path_key_of(b);
    crate::config::str_eq(x.as_str(), y.as_str())
}

} // verus!
