//! The layout of the screen: wrapping and cutting text to the terminal's width, what each
//! kind of line looks like, and which rows are visible.
use vstd::prelude::*;
use crate::text::{
    char_is, chars_of, find_from, find_newline, find_whitespace, is_whitespace, is_ws,
    lemma_find_from, strings_view, whitespace,
};
use crate::width::{char_display_width, char_width, display_width, str_width};
use crate::domain::{BrowserState, BrowserView, GeminiLine, LineSpec, lines_view};
use crate::domain::InputMode;
use crate::input::{link_targets, link_urls, page_links};
use crate::text::concat_str;

verus! {

broadcast use vstd::string::group_string_axioms;

/// The pieces of `s` from position `i` on, as `str::split('\n')` cuts them.
pub open spec fn split_lines_from(s: Seq<char>, i: int) -> Seq<Seq<char>>
    decreases s.len() + 1 - i,
    via split_lines_from_decreases
{
    if i < 0 || i > s.len() {
        seq![]
    } else {
        let e = find_from(s, i, char_is('\n'));
        seq![s.subrange(i, e)] + split_lines_from(s, e + 1)
    }
}

#[via_fn]
proof fn split_lines_from_decreases(s: Seq<char>, i: int) {
    if !(i < 0 || i > s.len()) {
        lemma_find_from(s, i, char_is('\n'));
    }
}

/// The words of `s` from position `i` on, as `str::split_whitespace` finds them.
pub open spec fn words_from(s: Seq<char>, i: int) -> Seq<Seq<char>>
    decreases s.len() - i,
    via words_from_decreases
{
    if i < 0 || i >= s.len() {
        seq![]
    } else if is_ws(s[i]) {
        words_from(s, i + 1)
    } else {
        let e = find_from(s, i, whitespace());
        seq![s.subrange(i, e)] + words_from(s, e)
    }
}

#[via_fn]
proof fn words_from_decreases(s: Seq<char>, i: int) {
    if !(i < 0 || i >= s.len()) && !is_ws(s[i]) {
        lemma_find_from(s, i + 1, whitespace());
    }
}

/// Whether the word `w` still fits on the line `cur`, one space between them.
pub open spec fn fits(cur: Seq<char>, w: Seq<char>, width: usize) -> bool {
    str_width(cur) + 1 + str_width(w) <= width
}

/// The lines that the words make when laid out greedily after the line `cur`: a word
/// goes on the current line where it fits, on a new line otherwise; a word wider than the
/// line stands alone.
pub open spec fn pack(cur: Seq<char>, words: Seq<Seq<char>>, width: usize) -> Seq<Seq<char>>
    decreases words.len(),
{
    if words.len() == 0 {
        if cur.len() == 0 {
            seq![]
        } else {
            seq![cur]
        }
    } else {
        let w = words[0];
        let rest = words.drop_first();
        if cur.len() == 0 {
            pack(w, rest, width)
        } else if fits(cur, w, width) {
            pack(cur + seq![' '] + w, rest, width)
        } else {
            seq![cur] + pack(w, rest, width)
        }
    }
}

/// The lines that a sequence of paragraphs makes.
pub open spec fn pack_paragraphs(paragraphs: Seq<Seq<char>>, width: usize) -> Seq<Seq<char>>
    decreases paragraphs.len(),
{
    if paragraphs.len() == 0 {
        seq![]
    } else {
        pack(seq![], words_from(paragraphs[0], 0), width) + pack_paragraphs(
            paragraphs.drop_first(),
            width,
        )
    }
}

/// `text` wrapped to `width` columns: each line of the text is a paragraph whose words
/// are laid out greedily; no line at all for width 0; one empty line where there are no
/// words.
pub open spec fn wrap(text: Seq<char>, width: usize) -> Seq<Seq<char>> {
    if width == 0 {
        seq![]
    } else if pack_paragraphs(split_lines_from(text, 0), width).len() == 0 {
        seq![Seq::empty()]
    } else {
        pack_paragraphs(split_lines_from(text, 0), width)
    }
}

/// Lays out the words of `v[lo..hi]` after `out`.
fn wrap_paragraph(v: &Vec<char>, lo: usize, hi: usize, width: usize, out: &mut Vec<String>)
    requires
        lo <= hi <= v.len(),
    ensures
        strings_view(final(out)@) == strings_view(old(out)@) + pack(
            seq![],
            words_from(v@.subrange(lo as int, hi as int), 0),
            width,
        ),
{
    let ghost sub = v@.subrange(lo as int, hi as int);
    let ghost goal = strings_view(out@) + pack(seq![], words_from(sub, 0), width);
    let mut cur = String::new();
    let mut i = lo;
    while i < hi
        invariant
            lo <= i <= hi <= v.len(),
            sub == v@.subrange(lo as int, hi as int),
            goal == strings_view(out@) + pack(cur@, words_from(sub, i - lo), width),
        decreases hi - i,
    {
        if is_whitespace(v[i]) {
            assert(sub[i - lo] == v@[i as int]);
            assert(words_from(sub, i - lo) == words_from(sub, i - lo + 1));
            i = i + 1;
        } else {
            assert(sub[i - lo] == v@[i as int]);
            let j = find_whitespace(v, lo, hi, i);
            proof {
                lemma_find_from(sub, i - lo, whitespace());
            }
            let mut word = String::new();
            let mut k = i;
            while k < j
                invariant
                    i <= k <= j <= hi <= v.len(),
                    word@ == v@.subrange(i as int, k as int),
                decreases j - k,
            {
                word.push(v[k]);
                assert(v@.subrange(i as int, k + 1) == v@.subrange(i as int, k as int).push(
                    v@[k as int],
                ));
                k = k + 1;
            }
            let ghost w = word@;
            assert(w =~= sub.subrange(i - lo, j - lo));
            let ghost words = words_from(sub, i - lo);
            assert(words == seq![w] + words_from(sub, j - lo));
            assert(words[0] == w);
            assert(words.drop_first() =~= words_from(sub, j - lo));
            let ghost before = out@;
            let ghost old_cur = cur@;
            let ghost rest = words_from(sub, j - lo);
            if cur.as_str().is_empty() {
                assert(pack(old_cur, words, width) == pack(w, rest, width));
                cur = word;
            } else {
                let cw = display_width(cur.as_str());
                let ww = display_width(word.as_str());
                if cw < width && ww <= width - cw - 1 {
                    assert(fits(old_cur, w, width));
                    assert(pack(old_cur, words, width) == pack(old_cur + seq![' '] + w, rest, width));
                    cur.push(' ');
                    cur.append(word.as_str());
                    assert(cur@ =~= old_cur + seq![' '] + w);
                } else {
                    assert(!fits(old_cur, w, width));
                    assert(pack(old_cur, words, width) == seq![old_cur] + pack(w, rest, width));
                    out.push(cur);
                    assert(strings_view(out@) =~= strings_view(before).push(old_cur));
                    assert(strings_view(before) + (seq![old_cur] + pack(w, rest, width)) =~= strings_view(
                        before,
                    ).push(old_cur) + pack(w, rest, width));
                    cur = word;
                }
            }
            i = j;
        }
    }
    assert(words_from(sub, i - lo) == Seq::<Seq<char>>::empty());
    if !cur.as_str().is_empty() {
        let ghost before = out@;
        out.push(cur);
        assert(strings_view(out@) =~= strings_view(before).push(out@.last()@));
    }
}

/// `text` wrapped to `width` columns.
pub fn wrap_text(text: &str, width: usize) -> (res: Vec<String>)
    ensures
        strings_view(res@) == wrap(text@, width),
{
    if width == 0 {
        let res: Vec<String> = Vec::new();
        assert(strings_view(res@) =~= Seq::<Seq<char>>::empty());
        return res;
    }
    let v = chars_of(text);
    let n = v.len();
    let mut out: Vec<String> = Vec::new();
    let ghost all = pack_paragraphs(split_lines_from(v@, 0), width);
    assert(strings_view(out@) =~= Seq::<Seq<char>>::empty());
    assert(all =~= strings_view(out@) + all);
    let mut pos: usize = 0;
    loop
        invariant_except_break
            pos <= n == v.len(),
            all == pack_paragraphs(split_lines_from(v@, 0), width),
            all == strings_view(out@) + pack_paragraphs(split_lines_from(v@, pos as int), width),
        ensures
            all == strings_view(out@),
            all == pack_paragraphs(split_lines_from(v@, 0), width),
        decreases n - pos,
    {
        let e = find_newline(&v, pos);
        proof {
            lemma_find_from(v@, pos as int, char_is('\n'));
        }
        let ghost piece = v@.subrange(pos as int, e as int);
        let ghost rest = split_lines_from(v@, e + 1);
        assert(split_lines_from(v@, pos as int) == seq![piece] + rest);
        assert((seq![piece] + rest).drop_first() =~= rest);
        assert((seq![piece] + rest)[0] == piece);
        let ghost before = strings_view(out@);
        wrap_paragraph(&v, pos, e, width, &mut out);
        assert(before + (pack(seq![], words_from(piece, 0), width) + pack_paragraphs(rest, width))
            =~= (before + pack(seq![], words_from(piece, 0), width)) + pack_paragraphs(rest, width));
        if e >= n {
            assert(rest == Seq::<Seq<char>>::empty());
            assert(pack_paragraphs(rest, width) == Seq::<Seq<char>>::empty());
            assert(strings_view(out@) + Seq::<Seq<char>>::empty() =~= strings_view(out@));
            break;
        }
        pos = e + 1;
    }
    if out.len() == 0 {
        out.push(String::new());
        assert(strings_view(out@) =~= seq![Seq::<char>::empty()]);
    }
    out
}

/// How many characters of `s`, from position `i` on, fit into `max` columns when `used`
/// columns are already taken (a control character takes none); the count ends at the
/// first character that does not fit.
pub open spec fn fitting_prefix(s: Seq<char>, max: int, i: int, used: int) -> int
    decreases s.len() - i,
{
    if i < 0 || i >= s.len() {
        s.len() as int
    } else {
        let w = match char_width(s[i]) {
            Some(w) => w as int,
            None => 0,
        };
        if used + w > max {
            i
        } else {
            fitting_prefix(s, max, i + 1, used + w)
        }
    }
}

/// The longest start of `s` whose characters fit into `max_width` columns.
pub open spec fn truncated(s: Seq<char>, max_width: usize) -> Seq<char> {
    s.take(fitting_prefix(s, max_width as int, 0, 0))
}

/// The number of characters that fit is between `i` and the length of `s`.
pub proof fn lemma_fitting_prefix(s: Seq<char>, max: int, i: int, used: int)
    requires
        0 <= i <= s.len(),
    ensures
        i <= fitting_prefix(s, max, i, used) <= s.len(),
    decreases s.len() - i,
{
    if i < s.len() {
        let w = match char_width(s[i]) {
            Some(w) => w as int,
            None => 0,
        };
        if used + w <= max {
            lemma_fitting_prefix(s, max, i + 1, used + w);
        }
    }
}

/// The start of `s` that fits into `max_width` columns.
pub fn truncate_to_width(s: &str, max_width: usize) -> (res: String)
    ensures
        res@ == truncated(s@, max_width),
{
    let v = chars_of(s);
    let mut used: usize = 0;
    let mut res = String::new();
    let mut i: usize = 0;
    proof {
        lemma_fitting_prefix(v@, max_width as int, 0, 0);
    }
    while i < v.len()
        invariant
            i <= v.len(),
            used <= max_width,
            v@ == s@,
            res@ == v@.take(i as int),
            fitting_prefix(v@, max_width as int, 0, 0) == fitting_prefix(
                v@,
                max_width as int,
                i as int,
                used as int,
            ),
        decreases v.len() - i,
    {
        let c = v[i];
        let w = match char_display_width(c) {
            Some(w) => w,
            None => 0,
        };
        if w > max_width - used {
            proof {
                lemma_fitting_prefix(v@, max_width as int, i as int, used as int);
            }
            return res;
        }
        res.push(c);
        assert(v@.take(i + 1) =~= v@.take(i as int).push(c));
        used = used + w;
        i = i + 1;
    }
    assert(v@.take(v@.len() as int) =~= v@);
    res
}

/// How a row is drawn.
#[derive(Clone, Copy, PartialEq, Eq, Debug, Structural)]
pub enum LineStyle {
    Plain,
    TopHeader,
    Header,
    Link,
    Preformatted,
}

/// The style of the rows a line makes.
pub open spec fn line_style(l: LineSpec) -> LineStyle {
    match l {
        LineSpec::Header(n, _) => if n == 1 {
            LineStyle::TopHeader
        } else {
            LineStyle::Header
        },
        LineSpec::Link(_, _) => LineStyle::Link,
        LineSpec::Preformatted(_) => LineStyle::Preformatted,
        _ => LineStyle::Plain,
    }
}

/// `n` hash signs.
pub open spec fn hashes(n: nat) -> Seq<char> {
    Seq::new(n, |i: int| '#')
}

/// Each line with `p` in front.
pub open spec fn prefixed(p: Seq<char>, lines: Seq<Seq<char>>) -> Seq<Seq<char>> {
    lines.map_values(|l: Seq<char>| p + l)
}

/// `width - 2`, or 0 where that is negative.
pub open spec fn narrower(width: usize) -> usize {
    if width >= 2 {
        (width - 2) as usize
    } else {
        0
    }
}

/// The rows of text one line of a page makes at `width` columns: text is wrapped, a
/// link shows its label, a header its level in hash signs, list items and quotes are
/// wrapped two columns narrower behind their marker, preformatted text is kept whole.
pub open spec fn drawn_lines(l: LineSpec, width: usize) -> Seq<Seq<char>> {
    match l {
        LineSpec::Text(t) => wrap(t, width),
        LineSpec::Link(_, label) => seq!["=> "@ + label],
        LineSpec::Header(n, t) => seq![hashes(n as nat) + " "@ + t],
        LineSpec::ListItem(t) => prefixed("* "@, wrap(t, narrower(width))),
        LineSpec::Quote(t) => prefixed("> "@, wrap(t, narrower(width))),
        LineSpec::Preformatted(t) => seq![t],
    }
}

/// Each string with `prefix` in front.
fn prefix_all(prefix: &str, lines: Vec<String>) -> (res: Vec<String>)
    ensures
        strings_view(res@) == prefixed(prefix@, strings_view(lines@)),
{
    let mut res: Vec<String> = Vec::new();
    let mut i: usize = 0;
    while i < lines.len()
        invariant
            i <= lines.len(),
            strings_view(res@) == prefixed(prefix@, strings_view(lines@).take(i as int)),
        decreases lines.len() - i,
    {
        let ghost before = res@;
        let item = concat_str(prefix, lines[i].as_str());
        res.push(item);
        assert(strings_view(res@) =~= strings_view(before).push(prefix@ + lines@[i as int]@));
        assert(strings_view(lines@).take(i + 1) =~= strings_view(lines@).take(i as int).push(
            lines@[i as int]@,
        ));
        assert(strings_view(res@) =~= prefixed(prefix@, strings_view(lines@).take(i + 1)));
        i = i + 1;
    }
    assert(strings_view(lines@).take(lines.len() as int) =~= strings_view(lines@));
    res
}

/// The rows of text one line of a page makes at `width` columns.
pub fn lines_to_draw(line: &GeminiLine, width: usize) -> (res: Vec<String>)
    ensures
        strings_view(res@) == drawn_lines(line@, width),
{
    let narrow = if width >= 2 {
        width - 2
    } else {
        0
    };
    match line {
        GeminiLine::Text(t) => wrap_text(t.as_str(), width),
        GeminiLine::Link(_, label) => {
            let mut res: Vec<String> = Vec::new();
            let item = concat_str("=> ", label.as_str());
            res.push(item);
            assert(item@ == "=> "@ + label@);
            assert(strings_view(res@) =~= seq![item@]);
            assert(drawn_lines(line@, width) == seq!["=> "@ + label@]);
            res
        },
        GeminiLine::Header(n, t) => {
            let mut s = String::new();
            let mut k: u8 = 0;
            while k < *n
                invariant
                    k <= *n,
                    s@ == hashes(k as nat),
                decreases *n - k,
            {
                s.push('#');
                assert(s@ =~= hashes((k + 1) as nat));
                k = k + 1;
            }
            let ghost h = s@;
            s.push(' ');
            s.append(t.as_str());
            proof {
                reveal_strlit(" ");
            }
            assert(s@ =~= h + " "@ + t@);
            let mut res: Vec<String> = Vec::new();
            res.push(s);
            assert(strings_view(res@) =~= drawn_lines(line@, width));
            res
        },
        GeminiLine::ListItem(t) => prefix_all("* ", wrap_text(t.as_str(), narrow)),
        GeminiLine::Quote(t) => prefix_all("> ", wrap_text(t.as_str(), narrow)),
        GeminiLine::Preformatted(t) => {
            let mut res: Vec<String> = Vec::new();
            res.push(t.clone());
            assert(strings_view(res@) =~= drawn_lines(line@, width));
            res
        },
    }
}

/// A row of page text before it is placed on the screen: its text, its style, and, for a
/// row of a link line, how many links come before that line.
pub struct RowSpec {
    pub text: Seq<char>,
    pub style: LineStyle,
    pub link: Option<nat>,
}

/// The rows one line makes.
pub open spec fn rows_of(l: LineSpec, width: usize, link: Option<nat>) -> Seq<RowSpec> {
    drawn_lines(l, width).map_values(|t: Seq<char>| RowSpec { text: t, style: line_style(l), link })
}

/// All rows of a page's content, in order.
pub open spec fn all_rows(content: Seq<LineSpec>, width: usize) -> Seq<RowSpec>
    decreases content.len(),
{
    if content.len() == 0 {
        seq![]
    } else {
        let l = content.last();
        let link = if l is Link {
            Some(link_urls(content.drop_last()).len())
        } else {
            None
        };
        all_rows(content.drop_last(), width) + rows_of(l, width, link)
    }
}

/// A row placed on the screen.
pub struct ScreenRow {
    pub row: i32,
    pub text: String,
    pub style: LineStyle,
    pub selected: bool,
}

/// The model of a `ScreenRow`.
pub struct ScreenRowView {
    pub row: i32,
    pub text: Seq<char>,
    pub style: LineStyle,
    pub selected: bool,
}

impl View for ScreenRow {
    type V = ScreenRowView;

    open spec fn view(&self) -> ScreenRowView {
        ScreenRowView { row: self.row, text: self.text@, style: self.style, selected: self.selected }
    }
}

/// The models of a sequence of screen rows.
pub open spec fn screen_rows_view(v: Seq<ScreenRow>) -> Seq<ScreenRowView> {
    v.map_values(|r: ScreenRow| r@)
}

/// How many rows show: those from `scroll` on, at most `max_y - 2` of them (the first and
/// the last screen row are taken).
pub open spec fn visible_count(total: int, scroll: int, max_y: i32) -> int {
    let cap = if max_y - 2 > 0 {
        max_y - 2
    } else {
        0
    };
    let avail = if total - scroll > 0 {
        total - scroll
    } else {
        0
    };
    if avail < cap {
        avail
    } else {
        cap
    }
}

/// The rows of a page that show on a screen of `max_y` rows scrolled by `scroll`: the
/// `k`-th of them goes to screen row `k + 1`, and is selected where it belongs to the
/// selected link.
pub open spec fn screen_rows(
    content: Seq<LineSpec>,
    width: usize,
    scroll: usize,
    max_y: i32,
    selected: Option<usize>,
) -> Seq<ScreenRowView> {
    let rows = all_rows(content, width);
    Seq::new(
        visible_count(rows.len() as int, scroll as int, max_y) as nat,
        |k: int|
            {
                let r = rows[scroll + k];
                ScreenRowView {
                    row: (k + 1) as i32,
                    text: r.text,
                    style: r.style,
                    selected: selected matches Some(i) && r.link == Some(i as nat),
                }
            },
    )
}

/// A row before it is placed on the screen.
struct DisplayRow {
    text: String,
    style: LineStyle,
    link: Option<usize>,
}

spec fn display_rows_view(v: Seq<DisplayRow>) -> Seq<RowSpec> {
    v.map_values(
        |r: DisplayRow|
            RowSpec {
                text: r.text@,
                style: r.style,
                link: match r.link {
                    Some(i) => Some(i as nat),
                    None => None,
                },
            },
    )
}

fn style_of(line: &GeminiLine) -> (res: LineStyle)
    ensures
        res == line_style(line@),
{
    match line {
        GeminiLine::Header(n, _) => if *n == 1 {
            LineStyle::TopHeader
        } else {
            LineStyle::Header
        },
        GeminiLine::Link(_, _) => LineStyle::Link,
        GeminiLine::Preformatted(_) => LineStyle::Preformatted,
        _ => LineStyle::Plain,
    }
}

/// All rows of a page's content.
fn all_display_rows(content: &Vec<GeminiLine>, width: usize) -> (res: Vec<DisplayRow>)
    ensures
        display_rows_view(res@) == all_rows(lines_view(content@), width),
{
    let mut res: Vec<DisplayRow> = Vec::new();
    let mut links: usize = 0;
    let mut i: usize = 0;
    while i < content.len()
        invariant
            i <= content.len(),
            links <= i,
            links == link_urls(lines_view(content@.take(i as int))).len(),
            display_rows_view(res@) == all_rows(lines_view(content@.take(i as int)), width),
        decreases content.len() - i,
    {
        let line = &content[i];
        let ghost prefix = lines_view(content@.take(i as int));
        let ghost next = lines_view(content@.take(i + 1));
        assert(next.drop_last() =~= prefix);
        assert(next.last() == line@);
        let is_link = match line {
            GeminiLine::Link(_, _) => true,
            _ => false,
        };
        let link = if is_link {
            Some(links)
        } else {
            None
        };
        let style = style_of(line);
        let texts = lines_to_draw(line, width);
        let ghost link_view: Option<nat> = if line@ is Link {
            Some(link_urls(prefix).len())
        } else {
            None
        };
        let ghost base = display_rows_view(res@);
        let mut j: usize = 0;
        while j < texts.len()
            invariant
                j <= texts.len(),
                strings_view(texts@) == drawn_lines(line@, width),
                style == line_style(line@),
                link_view == match link {
                    Some(x) => Some(x as nat),
                    None => None::<nat>,
                },
                display_rows_view(res@) == base + rows_of(line@, width, link_view).take(j as int),
            decreases texts.len() - j,
        {
            let ghost before = res@;
            res.push(DisplayRow { text: texts[j].clone(), style, link });
            assert(rows_of(line@, width, link_view).take(j + 1) =~= rows_of(line@, width, link_view).take(j as int).push(
                rows_of(line@, width, link_view)[j as int],
            ));
            assert(display_rows_view(res@) =~= display_rows_view(before).push(
                rows_of(line@, width, link_view)[j as int],
            ));
            j = j + 1;
        }
        assert(rows_of(line@, width, link_view).take(texts.len() as int) =~= rows_of(line@, width, link_view));
        if is_link {
            links = links + 1;
        }
        i = i + 1;
    }
    assert(content@.take(content.len() as int) =~= content@);
    res
}

/// The rows of the current page that show on a screen of `max_y` rows and `width`
/// columns, with the state's scroll offset and link selection; none without a page.
pub fn content_rows(state: &BrowserState, max_y: i32, width: usize) -> (res: Vec<ScreenRow>)
    requires
        max_y > i32::MIN,
    ensures
        match state.current_page {
            Some(p) => screen_rows_view(res@) == screen_rows(
                lines_view(p.content@),
                width,
                state.scroll_offset,
                max_y,
                state.selected_link_index,
            ),
            None => res@.len() == 0,
        },
{
    let mut out: Vec<ScreenRow> = Vec::new();
    let page = match &state.current_page {
        Some(p) => p,
        None => {
            return out;
        },
    };
    let rows = all_display_rows(&page.content, width);
    let ghost spec_rows = all_rows(lines_view(page.content@), width);
    let ghost want = screen_rows(
        lines_view(page.content@),
        width,
        state.scroll_offset,
        max_y,
        state.selected_link_index,
    );
    let scroll = state.scroll_offset;
    let selected = state.selected_link_index;
    let mut k = scroll;
    let mut screen_row: i32 = 1;
    while k < rows.len() && screen_row < max_y - 1
        invariant
            max_y > i32::MIN,
            scroll <= k,
            k - scroll == out.len(),
            screen_row == 1 + out.len(),
            screen_row <= max_y - 1 || out.len() == 0,
            display_rows_view(rows@) == spec_rows,
            spec_rows == all_rows(lines_view(page.content@), width),
            out.len() <= visible_count(spec_rows.len() as int, scroll as int, max_y),
            want == screen_rows(lines_view(page.content@), width, scroll, max_y, selected),
            forall|j: int| 0 <= j < out.len() ==> #[trigger] screen_rows_view(out@)[j] == want[j],
        decreases rows.len() - k,
    {
        let r = &rows[k];
        assert(out.len() < visible_count(spec_rows.len() as int, scroll as int, max_y));
        assert(spec_rows[k as int] == display_rows_view(rows@)[k as int]);
        let is_selected = match (r.link, selected) {
            (Some(a), Some(b)) => a == b,
            _ => false,
        };
        let ghost before = out@;
        out.push(ScreenRow { row: screen_row, text: r.text.clone(), style: r.style, selected: is_selected });
        let ghost idx = out.len() - 1;
        let ghost sr = spec_rows[scroll + idx];
        assert(want.len() == visible_count(spec_rows.len() as int, scroll as int, max_y));
        assert(want[idx] == (ScreenRowView {
            row: (idx + 1) as i32,
            text: sr.text,
            style: sr.style,
            selected: selected matches Some(i) && sr.link == Some(i as nat),
        }));
        assert(screen_rows_view(out@)[idx] == out@[idx]@);
        assert(sr.text == r.text@);
        assert(screen_rows_view(out@)[idx] == want[idx]);
        assert forall|j: int| 0 <= j < out.len() implies #[trigger] screen_rows_view(out@)[j] == want[j] by {
            if j < out.len() - 1 {
                assert(screen_rows_view(out@)[j] == screen_rows_view(before)[j]);
            }
        }
        k = k + 1;
        screen_row = screen_row + 1;
    }
    assert(screen_rows_view(out@) =~= want);
    out
}

/// The text of the top row: loading status and the current URL, cut to `width` columns.
pub open spec fn header_line(loading: bool, url: Option<Seq<char>>, width: usize) -> Seq<char> {
    let status = if loading {
        "[LOADING]"@
    } else {
        "[READY]"@
    };
    let shown = match url {
        Some(u) => u,
        None => "EMPTY"@,
    };
    truncated(" "@ + status + " URL: "@ + shown, width)
}

/// The text of the top row of the screen.
pub fn header_text(state: &BrowserState, width: usize) -> (res: String)
    ensures
        res@ == header_line(
            state.is_loading,
            match state.current_page {
                Some(p) => Some(p.url@),
                None => None,
            },
            width,
        ),
{
    let status = if state.is_loading {
        "[LOADING]"
    } else {
        "[READY]"
    };
    let mut text = String::from_str(" ");
    text.append(status);
    text.append(" URL: ");
    match &state.current_page {
        Some(p) => text.append(p.url.as_str()),
        None => text.append("EMPTY"),
    }
    truncate_to_width(text.as_str(), width)
}

/// `s` with spaces added up to `width` characters.
pub open spec fn padded(s: Seq<char>, width: usize) -> Seq<char> {
    if s.len() < width {
        s + Seq::new((width - s.len()) as nat, |i: int| ' ')
    } else {
        s
    }
}

/// The text after "LINK:" in the bottom row: the URL of the selected link, if any.
pub open spec fn hovered_link(state: BrowserView) -> Seq<char> {
    match (state.current_page, state.selected_link_index) {
        (Some(p), Some(i)) => if i < page_links(p).len() {
            " | LINK: "@ + page_links(p)[i as int]
        } else {
            Seq::empty()
        },
        _ => Seq::empty(),
    }
}

/// The text of the bottom row: the typed address while editing, otherwise the key help
/// and the selected link; cut to `width` columns and padded to `width` characters.
pub open spec fn footer_line(state: BrowserView, width: usize) -> Seq<char> {
    let footer = if state.input_mode == InputMode::Editing {
        " OPEN URL: "@ + state.url_input
    } else {
        " G:Go B:Back F:Fwd TAB:Nav C-B:Book L:List Q:Quit"@ + hovered_link(state)
    };
    padded(truncated(footer, width), width)
}

/// The text of the bottom row of the screen.
pub fn footer_text(state: &BrowserState, width: usize) -> (res: String)
    ensures
        res@ == footer_line(state@, width),
{
    let mut hovered = String::new();
    match (&state.current_page, state.selected_link_index) {
        (Some(page), Some(idx)) => {
            let links = link_targets(&page.content);
            if idx < links.len() {
                hovered = concat_str(" | LINK: ", links[idx].as_str());
            }
        },
        _ => {},
    }
    let footer = if state.input_mode == InputMode::Editing {
        concat_str(" OPEN URL: ", state.url_input.as_str())
    } else {
        concat_str(" G:Go B:Back F:Fwd TAB:Nav C-B:Book L:List Q:Quit", hovered.as_str())
    };
    let cut = truncate_to_width(footer.as_str(), width);
    let count = chars_of(cut.as_str()).len();
    let mut res = cut;
    let mut n = count;
    while n < width
        invariant
            count <= n <= width || (n == count && count >= width),
            res@ == truncated(footer@, width) + Seq::new((n - count) as nat, |i: int| ' '),
            count == truncated(footer@, width).len(),
        decreases width - n,
    {
        let ghost before = res@;
        res.push(' ');
        assert(res@ =~= truncated(footer@, width) + Seq::new((n + 1 - count) as nat, |i: int| ' '));
        n = n + 1;
    }
    assert(res@ =~= footer_line(state@, width));
    res
}

/// A row of the bookmark list.
pub struct BookmarkRow {
    pub row: i32,
    pub text: String,
    pub selected: bool,
}

/// The model of a `BookmarkRow`.
pub struct BookmarkRowView {
    pub row: i32,
    pub text: Seq<char>,
    pub selected: bool,
}

/// The models of a sequence of bookmark rows.
pub open spec fn bookmark_rows_view(v: Seq<BookmarkRow>) -> Seq<BookmarkRowView> {
    v.map_values(|r: BookmarkRow| BookmarkRowView { row: r.row, text: r.text@, selected: r.selected })
}

/// The bookmark list on a screen of `max_y` rows: the `k`-th bookmark shows its URL on
/// row `k + 2`, as long as `k < max_y - 3`; the selected one is marked.
pub open spec fn bookmark_lines(state: BrowserView, max_y: i32, width: usize) -> Seq<BookmarkRowView> {
    let cap = if max_y - 3 > 0 {
        max_y - 3
    } else {
        0
    };
    let count = if state.bookmarks.len() < cap {
        state.bookmarks.len() as int
    } else {
        cap
    };
    Seq::new(
        count as nat,
        |k: int|
            BookmarkRowView {
                row: (k + 2) as i32,
                text: truncated(" > "@ + state.bookmarks[k].url + " "@, width),
                selected: state.selected_bookmark_index == k,
            },
    )
}

/// The rows of the bookmark list.
pub fn bookmark_rows(state: &BrowserState, max_y: i32, width: usize) -> (res: Vec<BookmarkRow>)
    requires
        state.bookmarks.len() > 0 ==> max_y >= i32::MIN + 3,
    ensures
        bookmark_rows_view(res@) == bookmark_lines(state@, max_y, width),
{
    let ghost want = bookmark_lines(state@, max_y, width);
    let mut res: Vec<BookmarkRow> = Vec::new();
    let limit: i64 = max_y as i64 - 3;
    let cap: usize = if limit > 0 {
        limit as usize
    } else {
        0
    };
    let count = if state.bookmarks.len() < cap {
        state.bookmarks.len()
    } else {
        cap
    };
    assert(want.len() == count);
    let mut i: usize = 0;
    while i < count
        invariant
            i <= count <= state.bookmarks.len(),
            count == want.len(),
            res.len() == i,
            want == bookmark_lines(state@, max_y, width),
            forall|j: int| 0 <= j < i ==> #[trigger] bookmark_rows_view(res@)[j] == want[j],
        decreases state.bookmarks.len() - i,
    {
        let row = (i as i64 + 2) as i32;
        let mut text = String::from_str(" > ");
        text.append(state.bookmarks[i].url.as_str());
        text.append(" ");
        let cut = truncate_to_width(text.as_str(), width);
        let ghost before = res@;
        res.push(BookmarkRow { row, text: cut, selected: state.selected_bookmark_index == i });
        assert(bookmark_rows_view(res@)[i as int] == want[i as int]);
        assert forall|j: int| 0 <= j < i + 1 implies #[trigger] bookmark_rows_view(res@)[j] == want[j] by {
            if j < i {
                assert(bookmark_rows_view(res@)[j] == bookmark_rows_view(before)[j]);
            }
        }
        i = i + 1;
    }
    assert(bookmark_rows_view(res@) =~= want);
    res
}

/// The lines of the help screen.
pub open spec fn help_text(i: int) -> Seq<char> {
    if i == 0 {
        "--- HELP ---"@
    } else if i == 1 {
        "G: Go to URL | B: Back | F: Forward"@
    } else if i == 2 {
        "TAB: Next Link | S-TAB: Prev Link"@
    } else if i == 3 {
        "CTRL+B: Bookmark | L: List Bookmarks"@
    } else {
        "H: Close Help | Q: Quit"@
    }
}

/// How many lines the help screen has.
pub const HELP_LINES: usize = 5;

/// Half of `x`, rounded toward zero.
pub open spec fn half(x: int) -> int {
    if x >= 0 {
        x / 2
    } else {
        -((-x) / 2)
    }
}

/// A line of the help screen and where it goes.
pub struct HelpRow {
    pub row: i32,
    pub col: i32,
    pub text: String,
}

/// The help screen on a screen of `max_y` rows and `max_x` columns: line `i` goes to
/// row `max_y / 2 - 2 + i`, centred.
pub open spec fn help_layout(max_y: i32, max_x: i32) -> Seq<(i32, i32, Seq<char>)> {
    Seq::new(
        HELP_LINES as nat,
        |i: int| ((half(max_y as int) - 2 + i) as i32, half(max_x - help_text(i).len()) as i32, help_text(i)),
    )
}

/// The models of a sequence of help rows.
pub open spec fn help_rows_view(v: Seq<HelpRow>) -> Seq<(i32, i32, Seq<char>)> {
    v.map_values(|r: HelpRow| (r.row, r.col, r.text@))
}

fn help_line(i: usize) -> (res: &'static str)
    requires
        i < HELP_LINES,
    ensures
        res@ == help_text(i as int),
{
    if i == 0 {
        "--- HELP ---"
    } else if i == 1 {
        "G: Go to URL | B: Back | F: Forward"
    } else if i == 2 {
        "TAB: Next Link | S-TAB: Prev Link"
    } else if i == 3 {
        "CTRL+B: Bookmark | L: List Bookmarks"
    } else {
        "H: Close Help | Q: Quit"
    }
}

/// The lines of the help screen with their positions.
pub fn help_rows(max_y: i32, max_x: i32) -> (res: Vec<HelpRow>)
    requires
        max_x >= i32::MIN + 36,
    ensures
        help_rows_view(res@) == help_layout(max_y, max_x),
{
    proof {
        reveal_strlit("--- HELP ---");
        reveal_strlit("G: Go to URL | B: Back | F: Forward");
        reveal_strlit("TAB: Next Link | S-TAB: Prev Link");
        reveal_strlit("CTRL+B: Bookmark | L: List Bookmarks");
        reveal_strlit("H: Close Help | Q: Quit");
    }
    let ghost want = help_layout(max_y, max_x);
    let mut res: Vec<HelpRow> = Vec::new();
    let mut i: usize = 0;
    while i < HELP_LINES
        invariant
            i <= HELP_LINES,
            max_x >= i32::MIN + 36,
            res.len() == i,
            want == help_layout(max_y, max_x),
            forall|k: int| 0 <= k < HELP_LINES ==> help_text(k).len() <= 36,
            forall|j: int|
                0 <= j < i ==> #[trigger] help_rows_view(res@)[j]
                    == want[j],
        decreases HELP_LINES - i,
    {
        let txt = help_line(i);
        let n = chars_of(txt).len();
        assert(n <= 36);
        let row = max_y / 2 - 2 + (i as i32);
        let col = (max_x - (n as i32)) / 2;
        assert(row == half(max_y as int) - 2 + i);
        assert(col == half(max_x - help_text(i as int).len()));
        let ghost before = res@;
        res.push(HelpRow { row, col, text: String::from_str(txt) });
        assert(help_rows_view(res@)[i as int] == want[i as int]);
        assert forall|j: int|
            0 <= j < i + 1 implies #[trigger] help_rows_view(res@)[j]
            == want[j] by {
            if j < i {
                assert(res@[j] == before[j]);
                assert(help_rows_view(res@)[j] == help_rows_view(before)[j]);
            }
        }
        i = i + 1;
    }
    assert(help_rows_view(res@) =~= want);
    res
}

} // verus!
