//! The gemtext format: how a page body becomes a sequence of typed lines.
use vstd::prelude::*;
use crate::domain::{GeminiLine, LineSpec, lines_view};
use crate::text::{char_is, find_from, find_newline, find_space_or_tab, lemma_find_from, space_or_tab, starts_with, string_from, strip_cr_end, strip_trailing_cr, trim, trim_bounds};
use crate::urls::{join_url, url_join_result};

verus! {

/// The lines of `s` from position `i` on, as `str::lines` splits them, each without the
/// carriage returns at its end.
pub open spec fn text_lines_from(s: Seq<char>, i: int) -> Seq<Seq<char>>
    decreases s.len() + 1 - i,
    via text_lines_from_decreases
{
    if i < 0 || i >= s.len() {
        seq![]
    } else {
        let e = find_from(s, i, char_is('\n'));
        seq![strip_trailing_cr(s.subrange(i, e))] + text_lines_from(s, e + 1)
    }
}

#[via_fn]
proof fn text_lines_from_decreases(s: Seq<char>, i: int) {
    if !(i < 0 || i >= s.len()) {
        lemma_find_from(s, i, char_is('\n'));
    }
}

/// The lines of a text.
pub open spec fn text_lines(s: Seq<char>) -> Seq<Seq<char>> {
    text_lines_from(s, 0)
}

/// Whether a line opens or closes a preformatted block.
pub open spec fn is_fence(l: Seq<char>) -> bool {
    starts_with(l, seq!['`', '`', '`'])
}

/// The label of a link line: what follows the first space or tab after the target
/// (`k` is its position in `rest`), trimmed, or else the target itself.
pub open spec fn link_label(rest: Seq<char>, k: int, target: Seq<char>) -> Seq<char> {
    if k < rest.len() && trim(rest.skip(k + 1)).len() > 0 {
        trim(rest.skip(k + 1))
    } else {
        target
    }
}

/// A link line, given what follows `=>`: the target joined to the page's URL, and its
/// label; no line where the join fails.
pub open spec fn link_line(base: Seq<char>, after: Seq<char>) -> Option<LineSpec> {
    let rest = trim(after);
    let k = find_from(rest, 0, space_or_tab());
    let target = trim(rest.take(k));
    match url_join_result(base, target) {
        Some(u) => Some(LineSpec::Link(u, link_label(rest, k, target))),
        None => None,
    }
}

/// What a line outside a preformatted block becomes.
pub open spec fn classify(base: Seq<char>, l: Seq<char>) -> Option<LineSpec> {
    if l.len() == 0 {
        Some(LineSpec::Text(l))
    } else if starts_with(l, seq!['=', '>']) {
        link_line(base, l.skip(2))
    } else if starts_with(l, seq!['#', '#', '#']) {
        Some(LineSpec::Header(3, trim(l.skip(3))))
    } else if starts_with(l, seq!['#', '#']) {
        Some(LineSpec::Header(2, trim(l.skip(2))))
    } else if l[0] == '#' {
        Some(LineSpec::Header(1, trim(l.skip(1))))
    } else if starts_with(l, seq!['*', ' ']) {
        Some(LineSpec::ListItem(trim(l.skip(2))))
    } else if l[0] == '>' {
        Some(LineSpec::Quote(trim(l.skip(1))))
    } else {
        Some(LineSpec::Text(l))
    }
}

/// The content that a sequence of lines makes, `pre` telling whether a preformatted
/// block is open: fences toggle the block and are dropped, lines inside it are kept as
/// they are.
pub open spec fn parse_lines(base: Seq<char>, lines: Seq<Seq<char>>, pre: bool) -> Seq<LineSpec>
    decreases lines.len(),
{
    if lines.len() == 0 {
        seq![]
    } else {
        let l = lines[0];
        let rest = lines.drop_first();
        if is_fence(l) {
            parse_lines(base, rest, !pre)
        } else if pre {
            seq![LineSpec::Preformatted(l)] + parse_lines(base, rest, pre)
        } else {
            match classify(base, l) {
                Some(x) => seq![x] + parse_lines(base, rest, pre),
                None => parse_lines(base, rest, pre),
            }
        }
    }
}

/// The content of a gemtext document whose URL is `base`.
pub open spec fn gemtext(base: Seq<char>, text: Seq<char>) -> Seq<LineSpec> {
    parse_lines(base, text_lines(text), false)
}

/// The model of an optional line.
pub open spec fn opt_line_view(o: Option<GeminiLine>) -> Option<LineSpec> {
    match o {
        Some(l) => Some(l@),
        None => None,
    }
}

/// A link line: `v[lo..hi]` is what follows `=>`.
fn link_from(base: &str, v: &Vec<char>, lo: usize, hi: usize) -> (res: Option<GeminiLine>)
    requires
        lo <= hi <= v.len(),
    ensures
        opt_line_view(res) == link_line(base@, v@.subrange(lo as int, hi as int)),
{
    let ghost after = v@.subrange(lo as int, hi as int);
    let (a, b) = trim_bounds(v, lo, hi);
    let ghost rest = v@.subrange(a as int, b as int);
    let k = find_space_or_tab(v, a, b);
    assert(rest.take(k - a) =~= v@.subrange(a as int, k as int));
    let (ta, tb) = trim_bounds(v, a, k);
    let target = string_from(v, ta, tb);
    match join_url(base, target.as_str()) {
        Some(u) => {
            let label = if k < b {
                assert(rest.skip(k - a + 1) =~= v@.subrange(k + 1, b as int));
                let (la, lb) = trim_bounds(v, k + 1, b);
                if la < lb {
                    string_from(v, la, lb)
                } else {
                    target
                }
            } else {
                target
            };
            Some(GeminiLine::Link(u, label))
        },
        None => None,
    }
}

/// What the line `v[lo..hi]` becomes outside a preformatted block.
fn classify_line(base: &str, v: &Vec<char>, lo: usize, hi: usize) -> (res: Option<GeminiLine>)
    requires
        lo <= hi <= v.len(),
    ensures
        opt_line_view(res) == classify(base@, v@.subrange(lo as int, hi as int)),
{
    let ghost l = v@.subrange(lo as int, hi as int);
    let n = hi - lo;
    if n == 0 {
        assert(l =~= Seq::<char>::empty());
        return Some(GeminiLine::Text(String::new()));
    }
    if n >= 2 && v[lo] == '=' && v[lo + 1] == '>' {
        assert(l.subrange(0, 2) =~= seq!['=', '>']);
        assert(l.skip(2) =~= v@.subrange(lo + 2, hi as int));
        return link_from(base, v, lo + 2, hi);
    }
    assert(!starts_with(l, seq!['=', '>'])) by {
        if starts_with(l, seq!['=', '>']) {
            assert(l.subrange(0, 2)[0] == '=');
            assert(l.subrange(0, 2)[1] == '>');
        }
    }
    let h1 = v[lo] == '#';
    let h2 = h1 && n >= 2 && v[lo + 1] == '#';
    let h3 = h2 && n >= 3 && v[lo + 2] == '#';
    if h3 {
        assert(l.subrange(0, 3) =~= seq!['#', '#', '#']);
        assert(l.skip(3) =~= v@.subrange(lo + 3, hi as int));
        let (a, b) = trim_bounds(v, lo + 3, hi);
        return Some(GeminiLine::Header(3, string_from(v, a, b)));
    }
    assert(!starts_with(l, seq!['#', '#', '#'])) by {
        if starts_with(l, seq!['#', '#', '#']) {
            assert(l.subrange(0, 3)[0] == '#');
            assert(l.subrange(0, 3)[1] == '#');
            assert(l.subrange(0, 3)[2] == '#');
        }
    }
    if h2 {
        assert(l.subrange(0, 2) =~= seq!['#', '#']);
        assert(l.skip(2) =~= v@.subrange(lo + 2, hi as int));
        let (a, b) = trim_bounds(v, lo + 2, hi);
        return Some(GeminiLine::Header(2, string_from(v, a, b)));
    }
    assert(!starts_with(l, seq!['#', '#'])) by {
        if starts_with(l, seq!['#', '#']) {
            assert(l.subrange(0, 2)[0] == '#');
            assert(l.subrange(0, 2)[1] == '#');
        }
    }
    if h1 {
        assert(l.skip(1) =~= v@.subrange(lo + 1, hi as int));
        let (a, b) = trim_bounds(v, lo + 1, hi);
        return Some(GeminiLine::Header(1, string_from(v, a, b)));
    }
    if n >= 2 && v[lo] == '*' && v[lo + 1] == ' ' {
        assert(l.subrange(0, 2) =~= seq!['*', ' ']);
        assert(l.skip(2) =~= v@.subrange(lo + 2, hi as int));
        let (a, b) = trim_bounds(v, lo + 2, hi);
        return Some(GeminiLine::ListItem(string_from(v, a, b)));
    }
    assert(!starts_with(l, seq!['*', ' '])) by {
        if starts_with(l, seq!['*', ' ']) {
            assert(l.subrange(0, 2)[0] == '*');
            assert(l.subrange(0, 2)[1] == ' ');
        }
    }
    if v[lo] == '>' {
        assert(l.skip(1) =~= v@.subrange(lo + 1, hi as int));
        let (a, b) = trim_bounds(v, lo + 1, hi);
        return Some(GeminiLine::Quote(string_from(v, a, b)));
    }
    Some(GeminiLine::Text(string_from(v, lo, hi)))
}

/// The content of the gemtext document `text` whose URL is `base`.
pub fn parse_gemtext(base: &str, text: &Vec<char>) -> (out: Vec<GeminiLine>)
    ensures
        lines_view(out@) == gemtext(base@, text@),
{
    let n = text.len();
    let mut pos: usize = 0;
    let mut pre = false;
    let mut out: Vec<GeminiLine> = Vec::new();
    while pos < n
        invariant
            pos <= n == text.len(),
            gemtext(base@, text@) == lines_view(out@) + parse_lines(base@, text_lines_from(text@, pos as int), pre),
        decreases n - pos,
    {
        let e = find_newline(text, pos);
        let end = strip_cr_end(text, pos, e);
        let ghost l = text@.subrange(pos as int, end as int);
        let ghost rest = text_lines_from(text@, e + 1);
        assert(text_lines_from(text@, pos as int) == seq![l] + rest);
        assert((seq![l] + rest).drop_first() =~= rest);
        assert((seq![l] + rest)[0] == l);
        let ghost old_out = out@;
        let fence = end - pos >= 3 && text[pos] == '`' && text[pos + 1] == '`' && text[pos + 2] == '`';
        assert(fence == is_fence(l)) by {
            if fence {
                assert(l.subrange(0, 3) =~= seq!['`', '`', '`']);
            }
            if is_fence(l) {
                assert(l.subrange(0, 3)[0] == '`');
                assert(l.subrange(0, 3)[1] == '`');
                assert(l.subrange(0, 3)[2] == '`');
            }
        }
        if fence {
            pre = !pre;
        } else if pre {
            out.push(GeminiLine::Preformatted(string_from(text, pos, end)));
            assert(lines_view(out@) =~= lines_view(old_out) + seq![LineSpec::Preformatted(l)]);
        } else {
            match classify_line(base, text, pos, end) {
                Some(x) => {
                    out.push(x);
                    assert(lines_view(out@) =~= lines_view(old_out) + seq![x@]);
                },
                None => {},
            }
        }
        assert(text_lines_from(text@, if e < n { e + 1 } else { n as int }) == rest);
        pos = if e < n { e + 1 } else { n };
    }
    assert(text_lines_from(text@, pos as int) == Seq::<Seq<char>>::empty());
    assert(lines_view(out@) + Seq::<LineSpec>::empty() =~= lines_view(out@));
    out
}

} // verus!
