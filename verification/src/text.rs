//! Character-level text operations: whitespace, trimming and building strings.
use vstd::prelude::*;
use vstd::std_specs::iter::IteratorSpec;

verus! {

broadcast use vstd::string::group_string_axioms;

/// `String::push` appends one character at the end of the string.
pub assume_specification[ String::push ](string: &mut String, ch: char)
    ensures
        final(string)@ == old(string)@.push(ch),
;

/// `String::pop` removes the last character, if there is one, and hands it back.
pub assume_specification[ String::pop ](string: &mut String) -> (res: Option<char>)
    ensures
        old(string)@.len() > 0 ==> res == Some(old(string)@.last()) && final(string)@ == old(
            string,
        )@.drop_last(),
        old(string)@.len() == 0 ==> res is None && final(string)@ == old(string)@,
;

/// Whether `c` has the Unicode `White_Space` property (what `char::is_whitespace` tests).
pub open spec fn is_ws(c: char) -> bool {
    ||| ('\u{9}' <= c && c <= '\u{d}')
    ||| c == ' '
    ||| c == '\u{85}'
    ||| c == '\u{a0}'
    ||| c == '\u{1680}'
    ||| ('\u{2000}' <= c && c <= '\u{200a}')
    ||| c == '\u{2028}'
    ||| c == '\u{2029}'
    ||| c == '\u{202f}'
    ||| c == '\u{205f}'
    ||| c == '\u{3000}'
}

/// Whether `c` is whitespace.
pub fn is_whitespace(c: char) -> (res: bool)
    ensures
        res == is_ws(c),
{
    ('\u{9}' <= c && c <= '\u{d}') || c == ' ' || c == '\u{85}' || c == '\u{a0}' || c
        == '\u{1680}' || ('\u{2000}' <= c && c <= '\u{200a}') || c == '\u{2028}' || c
        == '\u{2029}' || c == '\u{202f}' || c == '\u{205f}' || c == '\u{3000}'
}

/// The characters of a string slice, one by one.
pub fn chars_of(s: &str) -> (v: Vec<char>)
    ensures
        v@ == s@,
{
    let mut v: Vec<char> = Vec::new();
    for c in it: s.chars()
        invariant
            v@ == it.seq().take(it.index() as int),
    {
        v.push(c);
    }
    v
}

/// `s` without its leading whitespace (what `str::trim_start` gives).
pub open spec fn trim_start(s: Seq<char>) -> Seq<char>
    decreases s.len(),
{
    if s.len() > 0 && is_ws(s[0]) {
        trim_start(s.drop_first())
    } else {
        s
    }
}

/// `s` without its trailing whitespace (what `str::trim_end` gives).
pub open spec fn trim_end(s: Seq<char>) -> Seq<char>
    decreases s.len(),
{
    if s.len() > 0 && is_ws(s.last()) {
        trim_end(s.drop_last())
    } else {
        s
    }
}

/// `s` without whitespace at either end (what `str::trim` gives).
pub open spec fn trim(s: Seq<char>) -> Seq<char> {
    trim_end(trim_start(s))
}

/// `s` without the carriage returns at its end (what `trim_end_matches('\r')` gives).
pub open spec fn strip_trailing_cr(s: Seq<char>) -> Seq<char>
    decreases s.len(),
{
    if s.len() > 0 && s.last() == '\r' {
        strip_trailing_cr(s.drop_last())
    } else {
        s
    }
}

/// The first position at or after `i` whose character satisfies `p`, or `s.len()`.
pub open spec fn find_from(s: Seq<char>, i: int, p: spec_fn(char) -> bool) -> int
    decreases s.len() - i,
{
    if i < 0 || i >= s.len() {
        s.len() as int
    } else if p(s[i]) {
        i
    } else {
        find_from(s, i + 1, p)
    }
}

/// `find_from` lands at or after `i`, on a character that passes the test, and every
/// character before it fails the test.
pub proof fn lemma_find_from(s: Seq<char>, i: int, p: spec_fn(char) -> bool)
    requires
        0 <= i <= s.len(),
    ensures
        i <= find_from(s, i, p) <= s.len(),
        find_from(s, i, p) < s.len() ==> p(s[find_from(s, i, p)]),
        forall|j: int| i <= j < find_from(s, i, p) ==> !p(#[trigger] s[j]),
    decreases s.len() - i,
{
    if i < s.len() && !p(s[i]) {
        lemma_find_from(s, i + 1, p);
    }
}

/// Whether `s` begins with `prefix`.
pub open spec fn starts_with(s: Seq<char>, prefix: Seq<char>) -> bool {
    prefix.len() <= s.len() && s.subrange(0, prefix.len() as int) == prefix
}

/// Whether `pat` occurs somewhere in `s`.
pub open spec fn contains_seq(s: Seq<char>, pat: Seq<char>) -> bool {
    exists|i: int| 0 <= i <= s.len() - pat.len() && #[trigger] s.subrange(i, i + pat.len()) == pat
}

/// The string made of `v[lo..hi]`.
pub fn string_from(v: &Vec<char>, lo: usize, hi: usize) -> (res: String)
    requires
        lo <= hi <= v.len(),
    ensures
        res@ == v@.subrange(lo as int, hi as int),
{
    let mut res = String::new();
    let mut i = lo;
    while i < hi
        invariant
            lo <= i <= hi <= v.len(),
            res@ == v@.subrange(lo as int, i as int),
        decreases hi - i,
    {
        res.push(v[i]);
        assert(v@.subrange(lo as int, i + 1) == v@.subrange(lo as int, i as int).push(v@[i as int]));
        i = i + 1;
    }
    res
}

/// The string made of `prefix` followed by `s`.
pub fn concat_str(prefix: &str, s: &str) -> (res: String)
    ensures
        res@ == prefix@ + s@,
{
    let mut res = String::from_str(prefix);
    res.append(s);
    res
}

/// The test "is the character `c`".
pub open spec fn char_is(c: char) -> spec_fn(char) -> bool {
    |x: char| x == c
}

/// The test "is whitespace".
pub open spec fn whitespace() -> spec_fn(char) -> bool {
    |x: char| is_ws(x)
}

/// The models of a sequence of strings.
pub open spec fn strings_view(v: Seq<String>) -> Seq<Seq<char>> {
    v.map_values(|s: String| s@)
}

/// The test "is a space or a tab".
pub open spec fn space_or_tab() -> spec_fn(char) -> bool {
    |x: char| x == ' ' || x == '\t'
}

/// The first position at or after `lo` that holds a line feed, or `v.len()`.
pub fn find_newline(v: &Vec<char>, lo: usize) -> (pos: usize)
    requires
        lo <= v.len(),
    ensures
        lo <= pos <= v.len(),
        pos as int == find_from(v@, lo as int, char_is('\n')),
{
    let mut i = lo;
    while i < v.len() && v[i] != '\n'
        invariant
            lo <= i <= v.len(),
            find_from(v@, lo as int, char_is('\n')) == find_from(v@, i as int, char_is('\n')),
        decreases v.len() - i,
    {
        assert(!char_is('\n')(v@[i as int]));
        i = i + 1;
    }
    i
}

/// The first position in `v[lo..hi]` that holds a space or a tab, or `hi`.
pub fn find_space_or_tab(v: &Vec<char>, lo: usize, hi: usize) -> (pos: usize)
    requires
        lo <= hi <= v.len(),
    ensures
        lo <= pos <= hi,
        pos - lo == find_from(v@.subrange(lo as int, hi as int), 0, space_or_tab()),
{
    let ghost sub = v@.subrange(lo as int, hi as int);
    let mut i = lo;
    while i < hi && v[i] != ' ' && v[i] != '\t'
        invariant
            lo <= i <= hi <= v.len(),
            sub == v@.subrange(lo as int, hi as int),
            find_from(sub, 0, space_or_tab()) == find_from(sub, i - lo, space_or_tab()),
        decreases hi - i,
    {
        assert(sub[i - lo] == v@[i as int]);
        assert(!space_or_tab()(sub[i - lo]));
        i = i + 1;
    }
    i
}

/// Bounds of `v[lo..hi]` with the whitespace at both ends left out.
pub fn trim_bounds(v: &Vec<char>, lo: usize, hi: usize) -> (res: (usize, usize))
    requires
        lo <= hi <= v.len(),
    ensures
        lo <= res.0 <= res.1 <= hi,
        v@.subrange(res.0 as int, res.1 as int) == trim(v@.subrange(lo as int, hi as int)),
{
    let mut a = lo;
    while a < hi && is_whitespace(v[a])
        invariant
            lo <= a <= hi <= v.len(),
            trim_start(v@.subrange(lo as int, hi as int)) == trim_start(v@.subrange(a as int, hi as int)),
        decreases hi - a,
    {
        assert(v@.subrange(a as int, hi as int).drop_first() == v@.subrange(a + 1, hi as int));
        a = a + 1;
    }
    let mut b = hi;
    while b > a && is_whitespace(v[b - 1])
        invariant
            lo <= a <= b <= hi <= v.len(),
            trim_start(v@.subrange(lo as int, hi as int)) == v@.subrange(a as int, hi as int),
            trim_end(v@.subrange(a as int, hi as int)) == trim_end(v@.subrange(a as int, b as int)),
        decreases b - a,
    {
        assert(v@.subrange(a as int, b as int).drop_last() == v@.subrange(a as int, b - 1));
        b = b - 1;
    }
    (a, b)
}

/// The end of `v[lo..hi]` once the carriage returns at its end are left out.
pub fn strip_cr_end(v: &Vec<char>, lo: usize, hi: usize) -> (end: usize)
    requires
        lo <= hi <= v.len(),
    ensures
        lo <= end <= hi,
        v@.subrange(lo as int, end as int) == strip_trailing_cr(v@.subrange(lo as int, hi as int)),
{
    let mut b = hi;
    while b > lo && v[b - 1] == '\r'
        invariant
            lo <= b <= hi <= v.len(),
            strip_trailing_cr(v@.subrange(lo as int, hi as int)) == strip_trailing_cr(v@.subrange(lo as int, b as int)),
        decreases b - lo,
    {
        assert(v@.subrange(lo as int, b as int).drop_last() == v@.subrange(lo as int, b - 1));
        b = b - 1;
    }
    b
}

/// Whether `v[lo..hi]` contains `://`.
pub fn contains_scheme_separator(v: &Vec<char>, lo: usize, hi: usize) -> (res: bool)
    requires
        lo <= hi <= v.len(),
    ensures
        res == contains_seq(v@.subrange(lo as int, hi as int), "://"@),
{
    proof {
        reveal_strlit("://");
    }
    let ghost sub = v@.subrange(lo as int, hi as int);
    let ghost pat = "://"@;
    let mut i = lo;
    while i < hi && hi - i >= 3
        invariant
            lo <= i <= hi <= v.len(),
            sub == v@.subrange(lo as int, hi as int),
            pat == "://"@,
            pat =~= seq![':', '/', '/'],
            forall|j: int| 0 <= j < i - lo && j <= sub.len() - 3 ==> #[trigger] sub.subrange(j, j + 3) != pat,
        decreases hi - i,
    {
        if v[i] == ':' && v[i + 1] == '/' && v[i + 2] == '/' {
            assert(sub.subrange(i - lo, i - lo + 3) =~= pat);
            return true;
        }
        assert(sub.subrange(i - lo, i - lo + 3)[0] == v@[i as int]);
        assert(sub.subrange(i - lo, i - lo + 3)[1] == v@[i + 1]);
        assert(sub.subrange(i - lo, i - lo + 3)[2] == v@[i + 2]);
        i = i + 1;
    }
    assert(!contains_seq(sub, pat));
    false
}

/// The first position in `v[i..hi]` that holds whitespace, or `hi`.
pub fn find_whitespace(v: &Vec<char>, lo: usize, hi: usize, i: usize) -> (pos: usize)
    requires
        lo <= i <= hi <= v.len(),
    ensures
        i <= pos <= hi,
        pos - lo == find_from(v@.subrange(lo as int, hi as int), i - lo, whitespace()),
{
    let ghost sub = v@.subrange(lo as int, hi as int);
    let mut j = i;
    while j < hi && !is_whitespace(v[j])
        invariant
            lo <= i <= j <= hi <= v.len(),
            sub == v@.subrange(lo as int, hi as int),
            find_from(sub, i - lo, whitespace()) == find_from(sub, j - lo, whitespace()),
        decreases hi - j,
    {
        assert(sub[j - lo] == v@[j as int]);
        assert(!whitespace()(sub[j - lo]));
        j = j + 1;
    }
    j
}

} // verus!
