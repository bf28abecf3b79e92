//! Character-level helpers shared by the parsers: whitespace, trimming, and
//! conversions between strings and character vectors.

use vstd::prelude::*;

verus! {

/// Unicode `White_Space`, the set `char::is_whitespace` tests for.
pub open spec fn is_space(c: char) -> bool {
    ||| '\u{9}' <= c <= '\u{d}'
    ||| c == ' '
    ||| c == '\u{85}'
    ||| c == '\u{a0}'
    ||| c == '\u{1680}'
    ||| '\u{2000}' <= c <= '\u{200a}'
    ||| c == '\u{2028}'
    ||| c == '\u{2029}'
    ||| c == '\u{202f}'
    ||| c == '\u{205f}'
    ||| c == '\u{3000}'
}

/// Whether `c` is whitespace.
pub fn is_whitespace(c: char) -> (r: bool)
    ensures
        r == is_space(c),
{
    ('\u{9}' <= c && c <= '\u{d}') || c == ' ' || c == '\u{85}' || c == '\u{a0}' || c
        == '\u{1680}' || ('\u{2000}' <= c && c <= '\u{200a}') || c == '\u{2028}' || c
        == '\u{2029}' || c == '\u{202f}' || c == '\u{205f}' || c == '\u{3000}'
}

/// Number of leading whitespace characters.
pub open spec fn lead_len(s: Seq<char>) -> nat
    decreases s.len(),
{
    if s.len() > 0 && is_space(s[0]) {
        1 + lead_len(s.drop_first())
    } else {
        0
    }
}

/// Number of trailing whitespace characters.
pub open spec fn trail_len(s: Seq<char>) -> nat
    decreases s.len(),
{
    if s.len() > 0 && is_space(s.last()) {
        1 + trail_len(s.drop_last())
    } else {
        0
    }
}

/// `s` without trailing whitespace, as `str::trim_end` gives it.
pub open spec fn trim_end(s: Seq<char>) -> Seq<char> {
    s.take(s.len() - trail_len(s))
}

/// `s` without leading whitespace, as `str::trim_start` gives it.
pub open spec fn trim_start(s: Seq<char>) -> Seq<char> {
    s.skip(lead_len(s) as int)
}

/// `s` without whitespace at either end, as `str::trim` gives it.
pub open spec fn trim(s: Seq<char>) -> Seq<char> {
    trim_end(trim_start(s))
}

pub proof fn lemma_lead_len(s: Seq<char>)
    ensures
        lead_len(s) <= s.len(),
        forall|i: int| 0 <= i < lead_len(s) ==> is_space(#[trigger] s[i]),
        lead_len(s) < s.len() ==> !is_space(s[lead_len(s) as int]),
    decreases s.len(),
{
    if s.len() > 0 && is_space(s[0]) {
        lemma_lead_len(s.drop_first());
        assert forall|i: int| 0 <= i < lead_len(s) implies is_space(#[trigger] s[i]) by {
            if i > 0 {
                assert(s[i] == s.drop_first()[i - 1]);
            }
        }
    }
}

pub proof fn lemma_trail_len(s: Seq<char>)
    ensures
        trail_len(s) <= s.len(),
        forall|i: int| s.len() - trail_len(s) <= i < s.len() ==> is_space(#[trigger] s[i]),
        trail_len(s) < s.len() ==> !is_space(s[s.len() - trail_len(s) - 1]),
    decreases s.len(),
{
    if s.len() > 0 && is_space(s.last()) {
        lemma_trail_len(s.drop_last());
        assert forall|i: int| s.len() - trail_len(s) <= i < s.len() implies is_space(
            #[trigger] s[i],
        ) by {
            if i < s.len() - 1 {
                assert(s[i] == s.drop_last()[i]);
            }
        }
    }
}

/// A leading-whitespace count that matches the definition above.
pub proof fn lemma_lead_len_exact(s: Seq<char>, n: int)
    requires
        0 <= n <= s.len(),
        forall|i: int| 0 <= i < n ==> is_space(#[trigger] s[i]),
        n < s.len() ==> !is_space(s[n]),
    ensures
        lead_len(s) == n,
    decreases s.len(),
{
    if n > 0 {
        assert forall|i: int| 0 <= i < n - 1 implies is_space(#[trigger] s.drop_first()[i]) by {
            assert(s.drop_first()[i] == s[i + 1]);
        }
        if n - 1 < s.drop_first().len() {
            assert(s.drop_first()[n - 1] == s[n]);
        }
        lemma_lead_len_exact(s.drop_first(), n - 1);
    }
}

/// A trailing-whitespace count that matches the definition above.
pub proof fn lemma_trail_len_exact(s: Seq<char>, n: int)
    requires
        0 <= n <= s.len(),
        forall|i: int| s.len() - n <= i < s.len() ==> is_space(#[trigger] s[i]),
        n < s.len() ==> !is_space(s[s.len() - n - 1]),
    ensures
        trail_len(s) == n,
    decreases s.len(),
{
    if n > 0 {
        let t = s.drop_last();
        assert forall|i: int| t.len() - (n - 1) <= i < t.len() implies is_space(#[trigger] t[i]) by {
            assert(t[i] == s[i]);
        }
        if n - 1 < t.len() {
            assert(t[t.len() - (n - 1) - 1] == s[s.len() - n - 1]);
        }
        lemma_trail_len_exact(t, n - 1);
    }
}

/// Unicode `Alphabetic` or `Numeric`, as `char::is_alphanumeric` tests it.
pub uninterp spec fn alphanumeric(c: char) -> bool;

/// Unicode `Alphabetic`, as `char::is_alphabetic` tests it.
pub uninterp spec fn alphabetic(c: char) -> bool;

/// `char::is_alphanumeric`.
#[verifier::external_body]
pub(crate) fn is_alphanumeric(c: char) -> (r: bool)
    ensures
        r == alphanumeric(c),
{
    c.is_alphanumeric()
}

/// `char::is_alphabetic`.
#[verifier::external_body]
pub(crate) fn is_alphabetic(c: char) -> (r: bool)
    ensures
        r == alphabetic(c),
{
    c.is_alphabetic()
}

/// Appends one character to a string.
#[verifier::external_body]
pub(crate) fn push_char(s: &mut String, c: char)
    ensures
        final(s)@ == old(s)@.push(c),
{
    s.push(c);
}

/// The characters of `s`, in order.
pub fn chars_of(s: &str) -> (r: Vec<char>)
    ensures
        r@ == s@,
{
    let mut out: Vec<char> = Vec::new();
    for c in it: s.chars()
        invariant
            out@ == it.seq().take(it.index() as int),
    {
        out.push(c);
    }
    out
}

/// The characters `s[from..to]` as a string.
pub fn string_of_range(s: &Vec<char>, from: usize, to: usize) -> (r: String)
    requires
        from <= to <= s.len(),
    ensures
        r@ == s@.subrange(from as int, to as int),
{
    let mut out = String::new();
    let mut i = from;
    while i < to
        invariant
            from <= i <= to <= s.len(),
            out@ == s@.subrange(from as int, i as int),
        decreases to - i,
    {
        push_char(&mut out, s[i]);
        i += 1;
        assert(out@ =~= s@.subrange(from as int, i as int));
    }
    out
}

/// The characters of `s` as a string.
pub fn string_of(s: &Vec<char>) -> (r: String)
    ensures
        r@ == s@,
{
    let r = string_of_range(s, 0, s.len());
    assert(s@.subrange(0, s.len() as int) =~= s@);
    r
}

/// Index just past the last non-whitespace character of `s[..to]`.
pub fn trim_end_index(s: &Vec<char>, to: usize) -> (r: usize)
    requires
        to <= s.len(),
    ensures
        r <= to,
        s@.take(r as int) == trim_end(s@.take(to as int)),
{
    let mut end = to;
    while end > 0 && is_whitespace(s[end - 1])
        invariant
            end <= to <= s.len(),
            forall|i: int| end <= i < to ==> is_space(#[trigger] s@[i]),
        decreases end,
    {
        end -= 1;
    }
    let ghost t = s@.take(to as int);
    proof {
        assert forall|i: int| t.len() - (to - end) <= i < t.len() implies is_space(#[trigger] t[i]) by {
            assert(t[i] == s@[i]);
        }
        if end > 0 {
            assert(t[t.len() - (to - end) - 1] == s@[end - 1]);
        }
        lemma_trail_len_exact(t, to - end);
        assert(s@.take(end as int) =~= t.take(t.len() - trail_len(t)));
    }
    end
}

/// Bounds of `s[from..to]` with surrounding whitespace removed.
pub fn trim_range(s: &Vec<char>, from: usize, to: usize) -> (r: (usize, usize))
    requires
        from <= to <= s.len(),
    ensures
        from <= r.0 <= r.1 <= to,
        s@.subrange(r.0 as int, r.1 as int) == trim(s@.subrange(from as int, to as int)),
        s@.subrange(r.0 as int, to as int) == trim_start(s@.subrange(from as int, to as int)),
        r.0 < to ==> !is_space(s@[r.0 as int]),
{
    let mut a = from;
    while a < to && is_whitespace(s[a])
        invariant
            from <= a <= to <= s.len(),
            forall|i: int| from <= i < a ==> is_space(#[trigger] s@[i]),
        decreases to - a,
    {
        a += 1;
    }
    let mut b = to;
    while b > a && is_whitespace(s[b - 1])
        invariant
            from <= a <= b <= to <= s.len(),
            forall|i: int| b <= i < to ==> is_space(#[trigger] s@[i]),
        decreases b,
    {
        b -= 1;
    }
    let ghost sub = s@.subrange(from as int, to as int);
    let ghost rest = s@.subrange(a as int, to as int);
    proof {
        assert forall|i: int| 0 <= i < a - from implies is_space(#[trigger] sub[i]) by {
            assert(sub[i] == s@[from + i]);
        }
        if a - from < sub.len() {
            assert(sub[a - from] == s@[a as int]);
        }
        lemma_lead_len_exact(sub, a - from);
        assert(sub.skip(a - from) =~= rest);
        assert forall|i: int| rest.len() - (to - b) <= i < rest.len() implies is_space(
            #[trigger] rest[i],
        ) by {
            assert(rest[i] == s@[a + i]);
        }
        if to - b < rest.len() {
            assert(rest[rest.len() - (to - b) - 1] == s@[b - 1]);
        }
        lemma_trail_len_exact(rest, to - b);
        assert(rest.take(rest.len() - trail_len(rest)) =~= s@.subrange(a as int, b as int));
    }
    (a, b)
}

/// Appends `t` to `s`.
pub fn append(s: &mut String, t: &str)
    ensures
        final(s)@ == old(s)@ + t@,
{
    let v = chars_of(t);
    let mut i: usize = 0;
    while i < v.len()
        invariant
            i <= v.len(),
            v@ == t@,
            s@ == old(s)@ + v@.take(i as int),
        decreases v.len() - i,
    {
        push_char(s, v[i]);
        assert(v@.take(i + 1) =~= v@.take(i as int).push(v@[i as int]));
        i += 1;
    }
    assert(v@.take(v.len() as int) =~= v@);
}

/// `s` with surrounding whitespace removed.
pub fn trimmed(s: &str) -> (r: String)
    ensures
        r@ == trim(s@),
{
    let v = chars_of(s);
    let (a, b) = trim_range(&v, 0, v.len());
    assert(v@.subrange(0, v.len() as int) =~= v@);
    string_of_range(&v, a, b)
}

/// The decimal digits of `n`.
pub open spec fn decimal(n: u64) -> Seq<char>
    decreases n,
{
    if n < 10 {
        seq![digit(n)]
    } else {
        decimal((n / 10) as u64).push(digit((n % 10) as u64))
    }
}

pub open spec fn digit(d: u64) -> char {
    (('0' as u64) + d) as char
}

fn digit_char(d: u64) -> (r: char)
    requires
        d < 10,
    ensures
        r == digit(d),
{
    match d {
        0 => '0',
        1 => '1',
        2 => '2',
        3 => '3',
        4 => '4',
        5 => '5',
        6 => '6',
        7 => '7',
        8 => '8',
        _ => '9',
    }
}

/// Appends the decimal digits of `n`.
pub fn push_decimal(s: &mut String, n: u64)
    ensures
        final(s)@ == old(s)@ + decimal(n),
    decreases n,
{
    if n >= 10 {
        push_decimal(s, n / 10);
    }
    push_char(s, digit_char(n % 10));
    proof {
        if n < 10 {
            assert(n % 10 == n);
        }
        assert(old(s)@ + decimal((n / 10) as u64) + seq![digit((n % 10) as u64)] =~= old(s)@ + decimal(
            (n / 10) as u64,
        ).push(digit((n % 10) as u64)));
    }
}


} // verus!
