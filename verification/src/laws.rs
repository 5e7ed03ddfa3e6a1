//! Properties that hold across the browser's operations.
use vstd::prelude::*;
use vstd::arithmetic::div_mod::{lemma_mod_self_0, lemma_small_mod};
use crate::client::{FetchStep, crlf_from, fails_with, fetch_spec, header_spec, is_redirect};
use crate::domain::{BookmarkView, BrowserView, HISTORY_LIMIT, InputMode, Page, history_bounded, push_bounded};
use crate::domain::{LineSpec, lines_view};
use crate::gemtext::{classify, gemtext, is_fence, link_line, parse_lines, text_lines, text_lines_from};
use crate::text::{
    char_is, contains_seq, find_from, is_ws, lemma_find_from, space_or_tab, strip_trailing_cr, trim,
    trim_end, trim_start, whitespace,
};
use crate::ui::{
    LineStyle, RowSpec, all_rows, bookmark_lines, drawn_lines, fits, fitting_prefix, footer_line,
    HELP_LINES, hashes, header_line, help_layout, help_text, hovered_link, lemma_fitting_prefix, pack, pack_paragraphs, screen_rows,
    split_lines_from, truncated, words_from, wrap,
};
use crate::urls::{url_host_of, url_join_result, url_parse_result, url_port_of, url_scheme_of};
use crate::decode::utf8_lossy;
use crate::width::{char_width, str_width};
use crate::input::{
    CommandView, Key, bookmarks_step, editing_step, link_urls, input_step, key_accepted, key_step, lemma_page_links_len,
    loaded_step, normal_step, page_links, select_next_link, select_prev_link,
};

verus! {

/// Adding a page to a back history that respects the limit keeps it within the limit.
pub proof fn law_push_keeps_history_bounded(history: Seq<Page>, page: Page)
    requires
        history.len() <= HISTORY_LIMIT,
    ensures
        push_bounded(history, page).len() <= HISTORY_LIMIT,
        push_bounded(history, page).last() == page,
{
}

/// No key makes the back history longer than `HISTORY_LIMIT`.
pub proof fn law_keys_keep_history_bounded(s: BrowserView, key: Key)
    requires
        history_bounded(s),
    ensures
        history_bounded(key_step(s, key).0),
{
}

/// No loaded page makes the back history longer than `HISTORY_LIMIT`.
pub proof fn law_loading_keeps_history_bounded(s: BrowserView, result: Result<Page, String>, id: u64)
    requires
        history_bounded(s),
    ensures
        history_bounded(loaded_step(s, result, id)),
{
}

/// A response to any request but the latest one changes nothing.
pub proof fn law_stale_response_ignored(s: BrowserView, result: Result<Page, String>, id: u64)
    requires
        id != s.current_request_id,
    ensures
        loaded_step(s, result, id) == s,
{
}

/// A key that starts a fetch gives it a fresh request id, one above the last, marks the
/// browser as loading, and from then on a response to the previous request is ignored.
pub proof fn law_fetch_gets_fresh_id(
    s: BrowserView,
    key: Key,
    url: Seq<char>,
    id: u64,
    late: Result<Page, String>,
)
    requires
        key_accepted(s, key),
        key_step(s, key).1 == CommandView::Fetch(url, id),
    ensures
        id == s.current_request_id + 1,
        key_step(s, key).0.current_request_id == id,
        key_step(s, key).0.is_loading,
        loaded_step(key_step(s, key).0, late, s.current_request_id) == key_step(s, key).0,
{
}

/// Request ids never go down: a key leaves the id alone or moves it one up, a loaded
/// page leaves it alone.
pub proof fn law_request_ids_never_decrease(s: BrowserView, key: Key, result: Result<Page, String>, id: u64)
    requires
        key_accepted(s, key),
    ensures
        key_step(s, key).0.current_request_id == s.current_request_id
            || key_step(s, key).0.current_request_id == s.current_request_id + 1,
        loaded_step(s, result, id).current_request_id == s.current_request_id,
{
}

/// Going back one page and then forward one page restores the current page and both
/// histories; only the scroll position is reset.
pub proof fn law_back_then_forward_restores(s: BrowserView)
    requires
        history_bounded(s),
        s.history_back.len() > 0,
        s.current_page is Some,
    ensures
        normal_step(s, Key::Char('b')).1 == CommandView::Nothing,
        normal_step(normal_step(s, Key::Char('b')).0, Key::Char('f')) == (
        BrowserView { scroll_offset: 0, ..s },
        CommandView::Nothing,
        ),
{
    let s1 = normal_step(s, Key::Char('b')).0;
    let t = normal_step(s1, Key::Char('f')).0;
    assert(s1.history_forward[0] == s.current_page->0);
    assert(s1.history_forward.drop_first() =~= s.history_forward);
    assert(t.history_back =~= s.history_back.drop_last().push(s.history_back.last()));
    assert(t.history_back =~= s.history_back);
    assert(t =~= BrowserView { scroll_offset: 0, ..s });
}

/// Going forward one page and then back one page restores the current page and both
/// histories, where the back history has room for one more page; only the scroll position
/// is reset.
pub proof fn law_forward_then_back_restores(s: BrowserView)
    requires
        s.history_back.len() < HISTORY_LIMIT,
        s.history_forward.len() > 0,
        s.current_page is Some,
    ensures
        normal_step(s, Key::Char('f')).1 == CommandView::Nothing,
        normal_step(normal_step(s, Key::Char('f')).0, Key::Char('b')) == (
        BrowserView { scroll_offset: 0, ..s },
        CommandView::Nothing,
        ),
{
    let s1 = normal_step(s, Key::Char('f')).0;
    let t = normal_step(s1, Key::Char('b')).0;
    assert(s1.history_back.drop_last() =~= s.history_back);
    assert(t.history_forward =~= seq![s.history_forward[0]] + s.history_forward.drop_first());
    assert(t.history_forward =~= s.history_forward);
    assert(t =~= BrowserView { scroll_offset: 0, ..s });
}

/// Moving the link selection forward and then back returns to the selected link, and
/// nothing else changes.
pub proof fn law_next_then_previous_link(s: BrowserView, p: Page, i: usize)
    requires
        s.current_page == Some(p),
        i < page_links(p).len(),
        s.selected_link_index == Some(i),
    ensures
        normal_step(normal_step(s, Key::Char('\t')).0, Key::BackTab) == (s, CommandView::Nothing),
{
    let n = page_links(p).len() as int;
    lemma_page_links_len(p);
    let s1 = normal_step(s, Key::Char('\t')).0;
    if i + 1 < n {
        lemma_small_mod((i + 1) as nat, n as nat);
        assert(s1.selected_link_index == Some((i + 1) as usize));
    } else {
        lemma_mod_self_0(n);
        assert(s1.selected_link_index == Some(0usize));
    }
    assert(s1.current_page == Some(p));
    assert(select_prev_link(s1).selected_link_index == Some(i));
    assert(select_prev_link(s1) =~= s);
}

/// Moving the link selection back and then forward returns to the selected link, and
/// nothing else changes.
pub proof fn law_previous_then_next_link(s: BrowserView, p: Page, i: usize)
    requires
        s.current_page == Some(p),
        i < page_links(p).len(),
        s.selected_link_index == Some(i),
    ensures
        normal_step(normal_step(s, Key::BackTab).0, Key::Char('\t')) == (s, CommandView::Nothing),
{
    let n = page_links(p).len() as int;
    lemma_page_links_len(p);
    let s1 = normal_step(s, Key::BackTab).0;
    if i == 0 {
        lemma_mod_self_0(n);
        assert(s1.selected_link_index == Some((n - 1) as usize));
        assert(select_next_link(s1).selected_link_index == Some(((n - 1 + 1) % n) as usize));
    } else {
        lemma_small_mod(i as nat, n as nat);
        assert(s1.selected_link_index == Some((i - 1) as usize));
        assert(select_next_link(s1).selected_link_index == Some(((i - 1 + 1) % n) as usize));
    }
    assert(s1.current_page == Some(p));
    assert(select_next_link(s1) =~= s);
}

/// Whether no bookmark occurs twice.
pub open spec fn no_duplicates(b: Seq<BookmarkView>) -> bool {
    forall|i: int, j: int| 0 <= i < j < b.len() ==> b[i] != b[j]
}

/// No key makes a bookmark occur twice.
pub proof fn law_keys_keep_bookmarks_distinct(s: BrowserView, key: Key)
    requires
        key_accepted(s, key),
        no_duplicates(s.bookmarks),
    ensures
        no_duplicates(key_step(s, key).0.bookmarks),
{
    let t = key_step(s, key).0;
    if key != Key::Char('q') && s.input_mode == InputMode::Normal && key == Key::Char('\u{2}') {
        if let Some(p) = s.current_page {
            let b = BookmarkView { url: p.url@, title: p.url@ };
            if !s.bookmarks.contains(b) {
                assert(t.bookmarks == s.bookmarks.push(b));
                assert forall|i: int, j: int| 0 <= i < j < t.bookmarks.len() implies t.bookmarks[i]
                    != t.bookmarks[j] by {
                    if j == s.bookmarks.len() {
                        assert(s.bookmarks[i] != b);
                    }
                }
            }
        }
    }
    if key != Key::Char('q') && s.input_mode == InputMode::Bookmarks && key == Key::Char('d')
        && s.bookmarks.len() > 0 {
        let k = s.selected_bookmark_index as int;
        assert forall|i: int, j: int| 0 <= i < j < t.bookmarks.len() implies t.bookmarks[i]
            != t.bookmarks[j] by {
            let i0 = if i < k {
                i
            } else {
                i + 1
            };
            let j0 = if j < k {
                j
            } else {
                j + 1
            };
            assert(t.bookmarks[i] == s.bookmarks[i0]);
            assert(t.bookmarks[j] == s.bookmarks[j0]);
        }
    }
}

/// Bookmarking the current page: with no page nothing happens; a page already bookmarked
/// gives the message "Already bookmarked" and stops loading, the list unchanged; otherwise
/// a bookmark with the page's URL as URL and title goes at the end of the list and the
/// list is to be stored. A list without duplicates stays so.
pub proof fn law_bookmark_current(s: BrowserView)
    ensures
        ({
            let r = normal_step(s, Key::Char('\u{2}'));
            match s.current_page {
                None => r == (s, CommandView::Nothing),
                Some(p) => {
                    let b = BookmarkView { url: p.url@, title: p.url@ };
                    if s.bookmarks.contains(b) {
                        &&& r.1 == CommandView::Nothing
                        &&& r.0 == (BrowserView {
                            error_message: Some("Already bookmarked"@),
                            is_loading: false,
                            ..s
                        })
                    } else {
                        &&& r.1 == CommandView::SaveBookmarks
                        &&& r.0 == (BrowserView { bookmarks: s.bookmarks.push(b), ..s })
                    }
                },
            }
        }),
        no_duplicates(s.bookmarks) ==> no_duplicates(normal_step(s, Key::Char('\u{2}')).0.bookmarks),
{
    let t = normal_step(s, Key::Char('\u{2}')).0;
    if let Some(p) = s.current_page {
        let b = BookmarkView { url: p.url@, title: p.url@ };
        if !s.bookmarks.contains(b) && no_duplicates(s.bookmarks) {
            assert forall|i: int, j: int| 0 <= i < j < t.bookmarks.len() implies t.bookmarks[i]
                != t.bookmarks[j] by {
                if j == s.bookmarks.len() {
                    assert(s.bookmarks[i] != b);
                }
            }
        }
    }
}

/// Typing a character into the address and erasing it again leaves everything as it was.
pub proof fn law_type_then_erase(s: BrowserView, c: char)
    requires
        c != '\n',
        c != '\u{1b}',
        c != '\u{7f}',
    ensures
        editing_step(s, Key::Char(c)).1 == CommandView::Nothing,
        editing_step(editing_step(s, Key::Char(c)).0, Key::Backspace) == (s, CommandView::Nothing),
{
    let s1 = editing_step(s, Key::Char(c)).0;
    assert(s1.url_input.drop_last() =~= s.url_input);
    assert(editing_step(s1, Key::Backspace).0 =~= s);
}

/// A key first clears the error message, then acts as the input mode says; in help mode
/// it only returns to normal mode. Afterwards an error message is shown only where this
/// key caused one: a page already bookmarked, or an address that does not parse.
pub proof fn law_key_dispatch(s: BrowserView, key: Key)
    ensures
        ({
            let s0 = BrowserView { error_message: None, ..s };
            input_step(s, key) == match s.input_mode {
                InputMode::Normal => normal_step(s0, key),
                InputMode::Editing => editing_step(s0, key),
                InputMode::Bookmarks => bookmarks_step(s0, key),
                InputMode::Help => (
                    BrowserView { input_mode: InputMode::Normal, ..s0 },
                    CommandView::Nothing,
                ),
            }
        }),
        ({
            let e = input_step(s, key).0.error_message;
            ||| e == None::<Seq<char>>
            ||| e == Some("Already bookmarked"@)
            ||| e == Some("Invalid URL"@)
        }),
{
}

/// The keys of normal mode that change the mode or the scroll position: `g` opens an
/// empty address prompt, `h` the help screen, `l` the bookmark list; Up and `k` scroll one
/// row up (not past the top), Down and `j` one row down. Nothing else changes and nothing
/// is asked of the caller.
pub proof fn law_normal_mode_keys(s: BrowserView)
    ensures
        normal_step(s, Key::Char('g')) == (
        BrowserView { input_mode: InputMode::Editing, url_input: Seq::<char>::empty(), ..s },
        CommandView::Nothing,
        ),
        normal_step(s, Key::Char('h')) == (
        BrowserView { input_mode: InputMode::Help, ..s },
        CommandView::Nothing,
        ),
        normal_step(s, Key::Char('l')) == (
        BrowserView { input_mode: InputMode::Bookmarks, ..s },
        CommandView::Nothing,
        ),
        s.scroll_offset > 0 ==> normal_step(s, Key::Up) == (
        BrowserView { scroll_offset: (s.scroll_offset - 1) as usize, ..s },
        CommandView::Nothing,
        ),
        s.scroll_offset == 0 ==> normal_step(s, Key::Up) == (s, CommandView::Nothing),
        normal_step(s, Key::Char('k')) == normal_step(s, Key::Up),
        s.scroll_offset < usize::MAX ==> normal_step(s, Key::Down) == (
        BrowserView { scroll_offset: (s.scroll_offset + 1) as usize, ..s },
        CommandView::Nothing,
        ),
        normal_step(s, Key::Char('j')) == normal_step(s, Key::Down),
{
}

/// Enter in normal mode follows the selected link: where a link is selected on the current
/// page, the next request fetches its URL and the browser is loading; otherwise nothing
/// happens.
pub proof fn law_enter_follows_selected_link(s: BrowserView)
    requires
        s.current_request_id < u64::MAX,
    ensures
        ({
            let r = normal_step(s, Key::Char('\n'));
            match (s.current_page, s.selected_link_index) {
                (Some(p), Some(i)) => if i < page_links(p).len() {
                    r == (
                    BrowserView {
                        current_request_id: (s.current_request_id + 1) as u64,
                        is_loading: true,
                        ..s
                    },
                    CommandView::Fetch(page_links(p)[i as int], (s.current_request_id + 1) as u64),
                    )
                } else {
                    r == (s, CommandView::Nothing)
                },
                _ => r == (s, CommandView::Nothing),
            }
        }),
{
}

/// The links of a page are the targets of its link lines, in order: none for no lines,
/// and a line adds its target at the end exactly when it is a link.
pub proof fn law_links_in_order(content: Seq<LineSpec>, l: LineSpec)
    ensures
        link_urls(Seq::<LineSpec>::empty()) == Seq::<Seq<char>>::empty(),
        link_urls(content.push(l)) == match l {
            LineSpec::Link(u, _) => link_urls(content).push(u),
            _ => link_urls(content),
        },
{
    assert(content.push(l).drop_last() =~= content);
}

/// The keys of the bookmark list. Up moves the selection one up (not past the first),
/// Down one down (not past the last); Enter returns to normal mode and, where the selected
/// bookmark's URL parses, fetches it as the next request; `d` deletes the selected bookmark
/// and keeps the selection on the list; any other key returns to normal mode.
pub proof fn law_bookmark_list_keys(s: BrowserView, key: Key)
    requires
        s.current_request_id < u64::MAX,
        s.selected_bookmark_index < usize::MAX,
        s.bookmarks.len() <= usize::MAX,
    ensures
        ({
            let k = s.selected_bookmark_index;
            let n = s.bookmarks.len();
            let r = bookmarks_step(s, key);
            let normal = BrowserView { input_mode: InputMode::Normal, ..s };
            &&& key == Key::Up ==> r == (
            BrowserView {
                selected_bookmark_index: if k > 0 {
                    (k - 1) as usize
                } else {
                    0
                },
                ..s
            },
            CommandView::Nothing,
            )
            &&& key == Key::Down ==> r == (
            BrowserView {
                selected_bookmark_index: if k + 1 < n {
                    (k + 1) as usize
                } else {
                    k
                },
                ..s
            },
            CommandView::Nothing,
            )
            &&& key == Key::Char('\n') ==> r == if k < n {
                match url_parse_result(s.bookmarks[k as int].url) {
                    Some(u) => (
                        BrowserView {
                            current_request_id: (s.current_request_id + 1) as u64,
                            is_loading: true,
                            ..normal
                        },
                        CommandView::Fetch(u, (s.current_request_id + 1) as u64),
                    ),
                    None => (normal, CommandView::Nothing),
                }
            } else {
                (normal, CommandView::Nothing)
            }
            &&& (key == Key::Char('d') && k < n) ==> r == (
            BrowserView {
                bookmarks: s.bookmarks.remove(k as int),
                selected_bookmark_index: if k + 1 < n {
                    k
                } else if n >= 2 {
                    (n - 2) as usize
                } else {
                    0
                },
                ..s
            },
            CommandView::Nothing,
            )
            &&& (key == Key::Char('d') && n == 0) ==> r == (s, CommandView::Nothing)
            &&& (key != Key::Up && key != Key::Down && key != Key::Char('\n') && key != Key::Char(
                'd',
            )) ==> r == (normal, CommandView::Nothing)
        }),
{
    let k = s.selected_bookmark_index;
    let n = s.bookmarks.len();
    if key == Key::Char('d') && k < n {
        let rest = s.bookmarks.remove(k as int);
        assert(rest.len() == n - 1);
        let sel: usize = if k + 1 < n {
            k
        } else if n >= 2 {
            (n - 2) as usize
        } else {
            0
        };
        let last: usize = if rest.len() > 0 {
            (rest.len() - 1) as usize
        } else {
            0
        };
        assert(sel == (if k <= last {
            k
        } else {
            last
        }));
        assert(bookmarks_step(s, key).0 =~= BrowserView {
            bookmarks: rest,
            selected_bookmark_index: sel,
            ..s
        });
    }
}

/// The keys of the address prompt. Escape leaves it; Backspace (or DEL) erases the last
/// character; Enter leaves it and, where the trimmed address is not blank, fetches it as
/// the next request, with `gemini://` put in front where it holds no `://`, or shows
/// "Invalid URL" where that does not parse; any other character is typed at the end.
pub proof fn law_address_prompt_keys(s: BrowserView, key: Key)
    requires
        s.current_request_id < u64::MAX,
    ensures
        ({
            let r = editing_step(s, key);
            let normal = BrowserView { input_mode: InputMode::Normal, ..s };
            let a = trim(s.url_input);
            let has_scheme = exists|i: int|
                0 <= i && i + 3 <= a.len() && #[trigger] a.subrange(i, i + 3) == seq![':', '/', '/'];
            let target = if has_scheme {
                a
            } else {
                seq!['g', 'e', 'm', 'i', 'n', 'i', ':', '/', '/'] + a
            };
            &&& key == Key::Char('\u{1b}') ==> r == (normal, CommandView::Nothing)
            &&& (key == Key::Backspace || key == Key::Char('\u{7f}')) ==> r == (
            BrowserView {
                url_input: if s.url_input.len() > 0 {
                    s.url_input.drop_last()
                } else {
                    s.url_input
                },
                ..s
            },
            CommandView::Nothing,
            )
            &&& (key == Key::Char('\n') && a.len() == 0) ==> r == (normal, CommandView::Nothing)
            &&& (key == Key::Char('\n') && a.len() > 0) ==> r == match url_parse_result(target) {
                Some(u) => (
                    BrowserView {
                        current_request_id: (s.current_request_id + 1) as u64,
                        is_loading: true,
                        ..normal
                    },
                    CommandView::Fetch(u, (s.current_request_id + 1) as u64),
                ),
                None => (
                    BrowserView { error_message: Some("Invalid URL"@), is_loading: false, ..normal },
                    CommandView::Nothing,
                ),
            }
            &&& (forall|c: char|
                key == Key::Char(c) && c != '\n' && c != '\u{1b}' && c != '\u{7f}' ==> r == (
                BrowserView { url_input: s.url_input.push(c), ..s },
                CommandView::Nothing,
                ))
        }),
{
    reveal_strlit("://");
    reveal_strlit("gemini://");
    let a = trim(s.url_input);
    assert("://"@ =~= seq![':', '/', '/']);
    assert("gemini://"@ =~= seq!['g', 'e', 'm', 'i', 'n', 'i', ':', '/', '/']);
    assert(contains_seq(a, "://"@) == exists|i: int|
        0 <= i && i + 3 <= a.len() && #[trigger] a.subrange(i, i + 3) == seq![':', '/', '/']);
}

/// Trimming keeps a piece of the text: everything before and after it is whitespace, and
/// the piece neither begins nor ends with whitespace.
pub proof fn law_trim_cuts_whitespace(x: Seq<char>)
    ensures
        exists|a: int, b: int|
            {
                &&& 0 <= a <= b <= x.len()
                &&& #[trigger] x.subrange(a, b) == trim(x)
                &&& forall|i: int| 0 <= i < a ==> is_ws(#[trigger] x[i])
                &&& forall|i: int| b <= i < x.len() ==> is_ws(#[trigger] x[i])
                &&& a < b ==> !is_ws(x[a]) && !is_ws(x[b - 1])
            },
{
    let (a, b) = lemma_trim_bounds(x);
    assert(x.subrange(a, b) == trim(x));
}

proof fn lemma_trim_start_bound(x: Seq<char>) -> (a: int)
    ensures
        0 <= a <= x.len(),
        trim_start(x) == x.skip(a),
        forall|i: int| 0 <= i < a ==> is_ws(#[trigger] x[i]),
        a < x.len() ==> !is_ws(x[a]),
    decreases x.len(),
{
    if x.len() > 0 && is_ws(x[0]) {
        let a0 = lemma_trim_start_bound(x.drop_first());
        assert(x.drop_first().skip(a0) =~= x.skip(a0 + 1));
        assert forall|i: int| 0 <= i < a0 + 1 implies is_ws(#[trigger] x[i]) by {
            if i > 0 {
                assert(x[i] == x.drop_first()[i - 1]);
            }
        }
        assert(a0 + 1 < x.len() ==> x[a0 + 1] == x.drop_first()[a0]);
        a0 + 1
    } else {
        assert(x.skip(0) =~= x);
        0
    }
}

proof fn lemma_trim_end_bound(x: Seq<char>) -> (b: int)
    ensures
        0 <= b <= x.len(),
        trim_end(x) == x.take(b),
        forall|i: int| b <= i < x.len() ==> is_ws(#[trigger] x[i]),
        b > 0 ==> !is_ws(x[b - 1]),
    decreases x.len(),
{
    if x.len() > 0 && is_ws(x.last()) {
        let b0 = lemma_trim_end_bound(x.drop_last());
        assert(x.drop_last().take(b0) =~= x.take(b0));
        assert forall|i: int| b0 <= i < x.len() implies is_ws(#[trigger] x[i]) by {
            if i < x.len() - 1 {
                assert(x[i] == x.drop_last()[i]);
            }
        }
        assert(b0 > 0 ==> x[b0 - 1] == x.drop_last()[b0 - 1]);
        b0
    } else {
        assert(x.take(x.len() as int) =~= x);
        x.len() as int
    }
}

proof fn lemma_trim_bounds(x: Seq<char>) -> (r: (int, int))
    ensures
        0 <= r.0 <= r.1 <= x.len(),
        x.subrange(r.0, r.1) == trim(x),
        forall|i: int| 0 <= i < r.0 ==> is_ws(#[trigger] x[i]),
        forall|i: int| r.1 <= i < x.len() ==> is_ws(#[trigger] x[i]),
        r.0 < r.1 ==> !is_ws(x[r.0]) && !is_ws(x[r.1 - 1]),
{
    let a = lemma_trim_start_bound(x);
    let y = x.skip(a);
    let b0 = lemma_trim_end_bound(y);
    assert(y.take(b0) =~= x.subrange(a, a + b0));
    assert forall|i: int| a + b0 <= i < x.len() implies is_ws(#[trigger] x[i]) by {
        assert(x[i] == y[i - a]);
    }
    if b0 > 0 {
        assert(x[a] == y[0]);
        assert(x[a + b0 - 1] == y[b0 - 1]);
    }
    (a, a + b0)
}

/// `b` goes one page back: the last page of the back history becomes the current one, the
/// current one goes to the front of the forward history, and the view returns to the top;
/// with an empty back history nothing happens.
pub proof fn law_back_key(s: BrowserView)
    ensures
        normal_step(s, Key::Char('b')).1 == CommandView::Nothing,
        s.history_back.len() == 0 ==> normal_step(s, Key::Char('b')).0 == s,
        s.history_back.len() > 0 ==> normal_step(s, Key::Char('b')).0 == (BrowserView {
            current_page: Some(s.history_back[s.history_back.len() - 1]),
            history_back: s.history_back.take(s.history_back.len() - 1),
            history_forward: match s.current_page {
                Some(c) => seq![c] + s.history_forward,
                None => s.history_forward,
            },
            scroll_offset: 0,
            ..s
        }),
{
}

/// `f` goes one page forward: the first page of the forward history becomes the current
/// one, the current one goes to the end of the back history (whose oldest page is dropped
/// where it already holds `HISTORY_LIMIT`), and the view returns to the top; with an empty
/// forward history nothing happens.
pub proof fn law_forward_key(s: BrowserView)
    ensures
        normal_step(s, Key::Char('f')).1 == CommandView::Nothing,
        s.history_forward.len() == 0 ==> normal_step(s, Key::Char('f')).0 == s,
        s.history_forward.len() > 0 ==> normal_step(s, Key::Char('f')).0 == (BrowserView {
            current_page: Some(s.history_forward[0]),
            history_forward: s.history_forward.skip(1),
            history_back: match s.current_page {
                Some(c) => if s.history_back.len() >= HISTORY_LIMIT {
                    s.history_back.skip(1).push(c)
                } else {
                    s.history_back.push(c)
                },
                None => s.history_back,
            },
            scroll_offset: 0,
            ..s
        }),
{
    if s.history_forward.len() > 0 {
        assert(s.history_forward.drop_first() =~= s.history_forward.skip(1));
        assert(s.history_back.drop_first() =~= s.history_back.skip(1));
    }
}

/// Tab selects the next link of the current page, from the last back to the first, and
/// the first where none is selected; Back-Tab the previous one, from the first back to the
/// last, and the last where none is selected. On a page without links, or without a page,
/// nothing happens.
pub proof fn law_link_cycling(s: BrowserView)
    ensures
        normal_step(s, Key::Char('\t')).1 == CommandView::Nothing,
        normal_step(s, Key::BackTab).1 == CommandView::Nothing,
        ({
            let next = normal_step(s, Key::Char('\t')).0;
            let prev = normal_step(s, Key::BackTab).0;
            match s.current_page {
                Some(p) => {
                    let n = page_links(p).len();
                    if n == 0 {
                        next == s && prev == s
                    } else {
                        &&& next == (BrowserView {
                            selected_link_index: Some(
                                match s.selected_link_index {
                                    Some(i) => if i + 1 < n {
                                        (i + 1) as usize
                                    } else if i + 1 == n {
                                        0usize
                                    } else {
                                        ((i + 1) % (n as int)) as usize
                                    },
                                    None => 0usize,
                                },
                            ),
                            ..s
                        })
                        &&& prev == (BrowserView {
                            selected_link_index: Some(
                                match s.selected_link_index {
                                    Some(i) => if i == 0 {
                                        (n - 1) as usize
                                    } else {
                                        (i - 1) as usize
                                    },
                                    None => (n - 1) as usize,
                                },
                            ),
                            ..s
                        })
                    }
                },
                None => next == s && prev == s,
            }
        }),
{
    if let Some(p) = s.current_page {
        let n = page_links(p).len() as int;
        if n > 0 {
            if let Some(i) = s.selected_link_index {
                if i + 1 < n {
                    lemma_small_mod((i + 1) as nat, n as nat);
                } else if i + 1 == n {
                    lemma_mod_self_0(n);
                }
            }
        }
    }
}

/// The outcome of the latest request: a page becomes the current one, the one it replaces
/// goes to the back history unless it has the same URL (the oldest page dropped where the
/// history is full), the forward history is cleared, the view returns to the top with no
/// link selected, and loading stops; an error is shown as the message and loading stops.
/// The outcome of any earlier request changes nothing.
pub proof fn law_loaded_outcome(s: BrowserView, result: Result<Page, String>)
    ensures
        ({
            let t = loaded_step(s, result, s.current_request_id);
            match result {
                Ok(page) => t == (BrowserView {
                    current_page: Some(page),
                    history_back: match s.current_page {
                        Some(c) => if c.url@ == page.url@ {
                            s.history_back
                        } else if s.history_back.len() >= HISTORY_LIMIT {
                            s.history_back.skip(1).push(c)
                        } else {
                            s.history_back.push(c)
                        },
                        None => s.history_back,
                    },
                    history_forward: Seq::<Page>::empty(),
                    scroll_offset: 0,
                    selected_link_index: None,
                    is_loading: false,
                    ..s
                }),
                Err(e) => t == (BrowserView { error_message: Some(e@), is_loading: false, ..s }),
            }
        }),
        forall|id: u64| id != s.current_request_id ==> #[trigger] loaded_step(s, result, id) == s,
{
    assert(s.history_back.drop_first() =~= s.history_back.skip(1));
}

/// `q` quits in every mode and changes nothing; any other key goes to the mode's reaction.
pub proof fn law_q_quits(s: BrowserView, key: Key)
    ensures
        key_step(s, Key::Char('q')) == (s, CommandView::Quit),
        key != Key::Char('q') ==> key_step(s, key) == input_step(s, key),
{
}

/// After a bookmark is deleted, the selection points at a bookmark, unless none is left.
pub proof fn law_delete_keeps_selection_on_list(s: BrowserView)
    requires
        s.input_mode == InputMode::Bookmarks,
        key_accepted(s, Key::Char('d')),
    ensures
        ({
            let t = key_step(s, Key::Char('d')).0;
            t.bookmarks.len() == 0 || t.selected_bookmark_index < t.bookmarks.len()
        }),
{
}

/// A redirect that leads to a new request leaves one redirect less for it: a chain of
/// redirects ends once the budget is spent.
pub proof fn law_redirects_spend_budget(
    url: Seq<char>,
    limit: u8,
    h: Seq<char>,
    body: Seq<u8>,
    res: FetchStep,
)
    requires
        limit > 0,
        is_redirect(h),
        header_spec(url, limit, h, body, res),
    ensures
        res matches FetchStep::Connect { redirect_limit, .. } ==> redirect_limit == limit - 1,
{
}

/// With no redirects left, a fetch fails at once.
pub proof fn law_no_budget_no_request(url: Seq<char>, res: FetchStep)
    requires
        fetch_spec(url, 0, res),
    ensures
        res matches FetchStep::Done(Err(e)) && e@ == "Too many redirects"@,
{
}

/// What a fetch decides before anything goes out: with no redirects left it fails with
/// "Too many redirects"; a URL whose scheme is not `gemini` fails with "Only gemini://
/// protocol is supported"; one without a host with "Missing host"; otherwise it connects to
/// the URL's host, on its port or on 1965, and sends the URL followed by CR LF, keeping
/// the redirect budget.
pub proof fn law_fetch_decision(url: Seq<char>, limit: u8, res: FetchStep)
    requires
        fetch_spec(url, limit, res),
    ensures
        limit == 0 ==> fails_with(res, "Too many redirects"@),
        (limit > 0 && url_scheme_of(url) != Some(seq!['g', 'e', 'm', 'i', 'n', 'i'])) ==> fails_with(
            res,
            "Only gemini:// protocol is supported"@,
        ),
        (limit > 0 && url_scheme_of(url) == Some(seq!['g', 'e', 'm', 'i', 'n', 'i'])
            && url_host_of(url) is None) ==> fails_with(res, "Missing host"@),
        (limit > 0 && url_scheme_of(url) == Some(seq!['g', 'e', 'm', 'i', 'n', 'i'])
            && url_host_of(url) is Some) ==> {
            &&& res matches FetchStep::Connect { url: u, host, port, request, redirect_limit }
            &&& u@ == url
            &&& url_host_of(url) == Some(host@)
            &&& port == match url_port_of(url) {
                Some(p) => p,
                None => 1965u16,
            }
            &&& request@ == url + seq!['\r', '\n']
            &&& redirect_limit == limit
        },
{
    reveal_strlit("gemini");
    reveal_strlit("\r\n");
    assert("gemini"@ =~= seq!['g', 'e', 'm', 'i', 'n', 'i']);
    assert("\r\n"@ =~= seq!['\r', '\n']);
}

/// What a response header means. A status starting with 3 is a redirect: where the status
/// is two ASCII characters, the target is what follows them, trimmed, read against the
/// URL, and it is fetched with one redirect less ("Invalid redirect URL" where it cannot be
/// read). A status starting with 2 gives the page: the body parsed as gemtext against the
/// URL. Anything else fails with "Server returned: " and the header.
pub proof fn law_header_meaning(url: Seq<char>, limit: u8, h: Seq<char>, body: Seq<u8>, res: FetchStep)
    requires
        header_spec(url, limit, h, body, res),
    ensures
        (h.len() >= 3 && h[0] == '3' && (h[1] as u32) < 0x80 && (h[2] as u32) < 0x80) ==> match url_join_result(
            url,
            trim(h.skip(3)),
        ) {
            Some(t) => fetch_spec(t, (limit - 1) as u8, res),
            None => fails_with(res, "Invalid redirect URL"@),
        },
        (h.len() > 0 && h[0] == '2') ==> (res matches FetchStep::Done(Ok(page)) && page.url@ == url
            && lines_view(page.content@) == gemtext(url, utf8_lossy(body))),
        !(h.len() > 0 && (h[0] == '2' || h[0] == '3')) ==> fails_with(
            res,
            "Server returned: "@ + h,
        ),
{
}

/// The header of a response ends at its first CR LF: `crlf_from` finds the first position
/// from which a CR is followed by an LF, or gives the length where there is none.
pub proof fn law_header_ends_at_first_crlf(raw: Seq<u8>)
    ensures
        ({
            let k = crlf_from(raw, 0);
            &&& 0 <= k <= raw.len()
            &&& k < raw.len() ==> k + 1 < raw.len() && raw[k] == 13 && raw[k + 1] == 10
            &&& forall|j: int|
                0 <= j < k && j + 1 < raw.len() ==> !(raw[j] == 13 && #[trigger] raw[j + 1] == 10)
        }),
{
    lemma_crlf_from(raw, 0);
}

proof fn lemma_crlf_from(raw: Seq<u8>, i: int)
    requires
        0 <= i,
    ensures
        ({
            let k = crlf_from(raw, i);
            &&& 0 <= k <= raw.len()
            &&& k < raw.len() ==> k + 1 < raw.len() && raw[k] == 13 && raw[k + 1] == 10
            &&& forall|j: int|
                i <= j < k && j + 1 < raw.len() ==> !(raw[j] == 13 && #[trigger] raw[j + 1] == 10)
        }),
    decreases raw.len() - i,
{
    if !(i + 1 >= raw.len()) && !(raw[i] == 13 && raw[i + 1] == 10) {
        lemma_crlf_from(raw, i + 1);
    }
}

proof fn lemma_text_lines_shift(x: Seq<char>, k: int, j: int)
    requires
        0 <= k <= x.len(),
        0 <= j <= x.len() - k + 1,
    ensures
        text_lines_from(x, k + j) == text_lines_from(x.skip(k), j),
    decreases x.len() - k - j + 1,
{
    let y = x.skip(k);
    if k + j < x.len() {
        lemma_find_shift(x, k, j, char_is('\n'));
        lemma_find_from(y, j, char_is('\n'));
        let e = find_from(y, j, char_is('\n'));
        assert(x.subrange(k + j, k + e) =~= y.subrange(j, e));
        lemma_text_lines_shift(x, k, e + 1);
    }
}

/// A body is cut into lines at each line feed, and each line loses the carriage returns
/// at its end: a line feed after `a` (which holds none) ends the line `a`, and what follows
/// is cut the same way; a last piece with no line feed after it is a line unless it is
/// empty. A stripped line is a start of the line, only carriage returns are cut, and it
/// does not end with one.
pub proof fn law_body_lines(a: Seq<char>, b: Seq<char>)
    requires
        forall|k: int| 0 <= k < a.len() ==> a[k] != '\n',
    ensures
        text_lines(a + seq!['\n'] + b) == seq![strip_trailing_cr(a)] + text_lines(b),
        text_lines(a) == if a.len() == 0 {
            Seq::<Seq<char>>::empty()
        } else {
            seq![strip_trailing_cr(a)]
        },
        strip_trailing_cr(a) == a.take(strip_trailing_cr(a).len() as int),
        forall|k: int| strip_trailing_cr(a).len() <= k < a.len() ==> #[trigger] a[k] == '\r',
        strip_trailing_cr(a).len() > 0 ==> strip_trailing_cr(a).last() != '\r',
{
    let s = a + seq!['\n'] + b;
    lemma_find_from(s, 0, char_is('\n'));
    let e = find_from(s, 0, char_is('\n'));
    assert(s[a.len() as int] == '\n');
    if e < a.len() {
        assert(s[e] == a[e]);
    }
    assert(e == a.len());
    assert(s.subrange(0, e) =~= a);
    lemma_text_lines_shift(s, e + 1, 0);
    assert(s.skip(e + 1) =~= b);
    lemma_find_from(a, 0, char_is('\n'));
    let f = find_from(a, 0, char_is('\n'));
    if f < a.len() {
        assert(char_is('\n')(a[f]));
    }
    assert(a.subrange(0, a.len() as int) =~= a);
    assert(text_lines_from(a, a.len() + 1int) == Seq::<Seq<char>>::empty());
    if a.len() > 0 {
        assert(text_lines(a) =~= seq![strip_trailing_cr(a)]);
    }
    lemma_strip_cr_prefix(a);
}

proof fn lemma_strip_cr_prefix(a: Seq<char>)
    ensures
        strip_trailing_cr(a) == a.take(strip_trailing_cr(a).len() as int),
        strip_trailing_cr(a).len() <= a.len(),
        forall|k: int| strip_trailing_cr(a).len() <= k < a.len() ==> #[trigger] a[k] == '\r',
        strip_trailing_cr(a).len() > 0 ==> strip_trailing_cr(a).last() != '\r',
    decreases a.len(),
{
    if a.len() > 0 && a.last() == '\r' {
        let d = a.drop_last();
        lemma_strip_cr_prefix(d);
        assert(d.take(strip_trailing_cr(d).len() as int) =~= a.take(strip_trailing_cr(d).len() as int));
        assert forall|k: int| strip_trailing_cr(a).len() <= k < a.len() implies #[trigger] a[k] == '\r' by {
            if k < a.len() - 1 {
                assert(a[k] == d[k]);
            }
        }
    } else {
        assert(a.take(a.len() as int) =~= a);
    }
}

/// The text a line shows: its label for a link.
pub open spec fn line_text(l: LineSpec) -> Seq<char> {
    match l {
        LineSpec::Text(t) => t,
        LineSpec::Link(_, label) => label,
        LineSpec::Header(_, t) => t,
        LineSpec::ListItem(t) => t,
        LineSpec::Quote(t) => t,
        LineSpec::Preformatted(t) => t,
    }
}

/// Whether `t` ends with a carriage return.
pub open spec fn ends_with_cr(t: Seq<char>) -> bool {
    t.len() > 0 && t.last() == '\r'
}

proof fn lemma_strip_cr(s: Seq<char>)
    ensures
        !ends_with_cr(strip_trailing_cr(s)),
    decreases s.len(),
{
    if s.len() > 0 && s.last() == '\r' {
        lemma_strip_cr(s.drop_last());
    }
}

proof fn lemma_trim_end(s: Seq<char>)
    ensures
        !ends_with_cr(trim_end(s)),
    decreases s.len(),
{
    if s.len() > 0 && is_ws(s.last()) {
        lemma_trim_end(s.drop_last());
    }
}

proof fn lemma_classify_no_cr(base: Seq<char>, l: Seq<char>)
    requires
        !ends_with_cr(l),
    ensures
        classify(base, l) matches Some(x) ==> !ends_with_cr(line_text(x)),
{
    lemma_trim_end(trim_start(l.skip(1)));
    lemma_trim_end(trim_start(l.skip(2)));
    lemma_trim_end(trim_start(l.skip(3)));
    if l.len() >= 2 {
        let rest = trim(l.skip(2));
        let k = crate::text::find_from(rest, 0, crate::text::space_or_tab());
        lemma_trim_end(trim_start(rest.take(k)));
        if k < rest.len() {
            lemma_trim_end(trim_start(rest.skip(k + 1)));
        }
        assert(link_line(base, l.skip(2)) matches Some(x) ==> !ends_with_cr(line_text(x)));
    }
}

proof fn lemma_parse_lines_no_cr(base: Seq<char>, lines: Seq<Seq<char>>, pre: bool)
    requires
        forall|i: int| 0 <= i < lines.len() ==> !ends_with_cr(#[trigger] lines[i]),
    ensures
        forall|i: int|
            0 <= i < parse_lines(base, lines, pre).len() ==> !ends_with_cr(
                #[trigger] line_text(parse_lines(base, lines, pre)[i]),
            ),
    decreases lines.len(),
{
    if lines.len() > 0 {
        let rest = lines.drop_first();
        assert forall|i: int| 0 <= i < rest.len() implies !ends_with_cr(#[trigger] rest[i]) by {
            assert(rest[i] == lines[i + 1]);
        }
        lemma_parse_lines_no_cr(base, rest, !pre);
        lemma_parse_lines_no_cr(base, rest, pre);
        assert(!ends_with_cr(lines[0]));
        lemma_classify_no_cr(base, lines[0]);
        let out = parse_lines(base, lines, pre);
        let tail = parse_lines(base, rest, pre);
        if crate::gemtext::is_fence(lines[0]) {
            assert(out == parse_lines(base, rest, !pre));
        } else if pre {
            assert(out == seq![LineSpec::Preformatted(lines[0])] + tail);
            assert forall|i: int| 0 <= i < out.len() implies !ends_with_cr(
                #[trigger] line_text(out[i]),
            ) by {
                if i > 0 {
                    assert(out[i] == tail[i - 1]);
                }
            }
        } else {
            match classify(base, lines[0]) {
                Some(x) => {
                    assert(out == seq![x] + tail);
                    assert forall|i: int| 0 <= i < out.len() implies !ends_with_cr(
                        #[trigger] line_text(out[i]),
                    ) by {
                        if i > 0 {
                            assert(out[i] == tail[i - 1]);
                        }
                    }
                },
                None => {
                    assert(out == tail);
                },
            }
        }
    }
}

proof fn lemma_text_lines_no_cr(s: Seq<char>, i: int)
    ensures
        forall|j: int|
            0 <= j < text_lines_from(s, i).len() ==> !ends_with_cr(#[trigger] text_lines_from(s, i)[j]),
    decreases s.len() + 1 - i,
{
    if !(i < 0 || i >= s.len()) {
        let e = crate::text::find_from(s, i, char_is('\n'));
        lemma_find_from(s, i, char_is('\n'));
        lemma_text_lines_no_cr(s, e + 1);
        lemma_strip_cr(s.subrange(i, e));
        let all = text_lines_from(s, i);
        let rest = text_lines_from(s, e + 1);
        assert forall|j: int| 0 <= j < all.len() implies !ends_with_cr(#[trigger] all[j]) by {
            if j > 0 {
                assert(all[j] == rest[j - 1]);
            }
        }
    }
}

/// A link line: after `=>`, the text is trimmed and cut at its first space or tab; the
/// part before, trimmed, is the target, read against the page's URL (no line at all where
/// that fails); the part after, trimmed, is the label, or the target where it is blank.
pub proof fn law_link_line(base: Seq<char>, after: Seq<char>, k: int)
    requires
        0 <= k <= trim(after).len(),
        k < trim(after).len() ==> (trim(after)[k] == ' ' || trim(after)[k] == '\t'),
        forall|j: int| 0 <= j < k ==> #[trigger] trim(after)[j] != ' ' && trim(after)[j] != '\t',
    ensures
        ({
            let rest = trim(after);
            let target = trim(rest.take(k));
            let label = if k < rest.len() && trim(rest.skip(k + 1)).len() > 0 {
                trim(rest.skip(k + 1))
            } else {
                target
            };
            link_line(base, after) == match url_join_result(base, target) {
                Some(u) => Some(LineSpec::Link(u, label)),
                None => None::<LineSpec>,
            }
        }),
{
    let rest = trim(after);
    lemma_find_from(rest, 0, space_or_tab());
    let f = find_from(rest, 0, space_or_tab());
    if f < k {
        assert(space_or_tab()(rest[f]));
    }
    if k < f {
        assert(!space_or_tab()(rest[k]));
    }
    assert(f == k);
}

/// Whether a line begins with three backticks.
pub open spec fn begins_with_backticks(l: Seq<char>) -> bool {
    l.len() >= 3 && l[0] == '`' && l[1] == '`' && l[2] == '`'
}

proof fn lemma_fence_is_backticks(l: Seq<char>)
    ensures
        is_fence(l) <==> begins_with_backticks(l),
{
    if begins_with_backticks(l) {
        assert(l.subrange(0, 3) =~= seq!['`', '`', '`']);
    }
    if is_fence(l) {
        assert(l.subrange(0, 3)[0] == l[0]);
        assert(l.subrange(0, 3)[1] == l[1]);
        assert(l.subrange(0, 3)[2] == l[2]);
    }
}

/// A line that begins with three backticks, whatever follows them (a language name, say),
/// opens or closes a preformatted block and shows nothing itself.
pub proof fn law_backtick_line_toggles_block(
    base: Seq<char>,
    l: Seq<char>,
    rest: Seq<Seq<char>>,
    pre: bool,
)
    requires
        begins_with_backticks(l),
    ensures
        parse_lines(base, seq![l] + rest, pre) == parse_lines(base, rest, !pre),
{
    lemma_fence_is_backticks(l);
    assert((seq![l] + rest)[0] == l);
    assert((seq![l] + rest).drop_first() =~= rest);
}

/// Inside a preformatted block, a line that does not begin with three backticks is shown
/// exactly as it is, and the block stays open.
pub proof fn law_line_inside_block_kept(base: Seq<char>, l: Seq<char>, rest: Seq<Seq<char>>)
    requires
        !begins_with_backticks(l),
    ensures
        parse_lines(base, seq![l] + rest, true) == seq![LineSpec::Preformatted(l)] + parse_lines(
            base,
            rest,
            true,
        ),
{
    lemma_fence_is_backticks(l);
    assert((seq![l] + rest)[0] == l);
    assert((seq![l] + rest).drop_first() =~= rest);
}

/// Outside a preformatted block, a line that does not begin with three backticks becomes
/// one line of its kind, or none (a link whose target cannot be joined): an empty line is
/// empty text; `###`, `##` and `#` make headers of level 3, 2 and 1 with the trimmed rest;
/// `* ` a list item and `>` a quote, each with the trimmed rest; any other line is text
/// as it is; and the lines after it are parsed outside a block.
pub proof fn law_line_kinds(base: Seq<char>, l: Seq<char>, rest: Seq<Seq<char>>)
    requires
        !begins_with_backticks(l),
    ensures
        ({
            let r = parse_lines(base, seq![l] + rest, false);
            let after = parse_lines(base, rest, false);
            let is_link = l.len() >= 2 && l[0] == '=' && l[1] == '>';
            &&& l.len() == 0 ==> r == seq![LineSpec::Text(Seq::empty())] + after
            &&& is_link ==> r == match link_line(base, l.skip(2)) {
                Some(x) => seq![x] + after,
                None => after,
            }
            &&& (!is_link && l.len() >= 3 && l[0] == '#' && l[1] == '#' && l[2] == '#') ==> r
                == seq![LineSpec::Header(3, trim(l.skip(3)))] + after
            &&& (!is_link && l.len() >= 2 && l[0] == '#' && l[1] == '#' && !(l.len() >= 3 && l[2]
                == '#')) ==> r == seq![LineSpec::Header(2, trim(l.skip(2)))] + after
            &&& (!is_link && l.len() >= 1 && l[0] == '#' && !(l.len() >= 2 && l[1] == '#')) ==> r
                == seq![LineSpec::Header(1, trim(l.skip(1)))] + after
            &&& (l.len() >= 2 && l[0] == '*' && l[1] == ' ') ==> r == seq![
                LineSpec::ListItem(trim(l.skip(2))),
            ] + after
            &&& (l.len() >= 1 && l[0] == '>') ==> r == seq![LineSpec::Quote(trim(l.skip(1)))]
                + after
            &&& (l.len() >= 1 && l[0] != '#' && l[0] != '>' && !is_link && !(l.len() >= 2 && l[0]
                == '*' && l[1] == ' ')) ==> r == seq![LineSpec::Text(l)] + after
        }),
{
    lemma_fence_is_backticks(l);
    assert((seq![l] + rest)[0] == l);
    assert((seq![l] + rest).drop_first() =~= rest);
    if l.len() >= 2 {
        let two = l.subrange(0, 2);
        if l[0] == '=' && l[1] == '>' {
            assert(two =~= seq!['=', '>']);
        }
        if l[0] == '#' && l[1] == '#' {
            assert(two =~= seq!['#', '#']);
        }
        if l[0] == '*' && l[1] == ' ' {
            assert(two =~= seq!['*', ' ']);
        }
        assert(two[0] == l[0] && two[1] == l[1]);
    }
    if l.len() >= 3 {
        let three = l.subrange(0, 3);
        if l[0] == '#' && l[1] == '#' && l[2] == '#' {
            assert(three =~= seq!['#', '#', '#']);
        }
        assert(three[0] == l[0] && three[1] == l[1] && three[2] == l[2]);
    }
    let r = parse_lines(base, seq![l] + rest, false);
    let after = parse_lines(base, rest, false);
    if l.len() == 0 {
        assert(l =~= Seq::<char>::empty());
    }
}

/// The lines that a preformatted block shows: each line as it is.
pub open spec fn preformatted(lines: Seq<Seq<char>>) -> Seq<LineSpec> {
    lines.map_values(|l: Seq<char>| LineSpec::Preformatted(l))
}

proof fn lemma_inside_block(base: Seq<char>, ls: Seq<Seq<char>>, tail: Seq<Seq<char>>)
    requires
        forall|i: int| 0 <= i < ls.len() ==> !is_fence(#[trigger] ls[i]),
    ensures
        parse_lines(base, ls + tail, true) == preformatted(ls) + parse_lines(base, tail, true),
    decreases ls.len(),
{
    if ls.len() == 0 {
        assert(ls + tail =~= tail);
        assert(preformatted(ls) + parse_lines(base, tail, true) =~= parse_lines(base, tail, true));
    } else {
        let rest = ls.drop_first();
        assert forall|i: int| 0 <= i < rest.len() implies !is_fence(#[trigger] rest[i]) by {
            assert(rest[i] == ls[i + 1]);
        }
        lemma_inside_block(base, rest, tail);
        assert((ls + tail)[0] == ls[0]);
        assert((ls + tail).drop_first() =~= rest + tail);
        assert(!is_fence(ls[0]));
        assert(preformatted(ls) =~= seq![LineSpec::Preformatted(ls[0])] + preformatted(rest));
        assert(seq![LineSpec::Preformatted(ls[0])] + (preformatted(rest) + parse_lines(base, tail, true))
            =~= preformatted(ls) + parse_lines(base, tail, true));
    }
}

/// Lines between an opening and a closing fence are kept exactly as they are, as
/// preformatted lines, whatever they look like (links and headers included); the fences
/// themselves show nothing, and what follows is parsed as usual.
pub proof fn law_fenced_lines_kept_verbatim(
    base: Seq<char>,
    open: Seq<char>,
    block: Seq<Seq<char>>,
    close: Seq<char>,
    rest: Seq<Seq<char>>,
)
    requires
        begins_with_backticks(open),
        begins_with_backticks(close),
        forall|i: int| 0 <= i < block.len() ==> !begins_with_backticks(#[trigger] block[i]),
    ensures
        parse_lines(base, seq![open] + block + seq![close] + rest, false) == preformatted(block)
            + parse_lines(base, rest, false),
{
    lemma_fence_is_backticks(open);
    lemma_fence_is_backticks(close);
    assert forall|i: int| 0 <= i < block.len() implies !is_fence(#[trigger] block[i]) by {
        lemma_fence_is_backticks(block[i]);
    }
    let all = seq![open] + block + seq![close] + rest;
    assert(all[0] == open);
    assert(all.drop_first() =~= block + (seq![close] + rest));
    lemma_inside_block(base, block, seq![close] + rest);
    let t = seq![close] + rest;
    assert(t[0] == close);
    assert(t.drop_first() =~= rest);
}

/// Parsing drops carriage returns at line ends: no line of a parsed page shows text that
/// ends with one, whatever line endings the body uses.
pub proof fn law_parse_strips_carriage_returns(base: Seq<char>, text: Seq<char>)
    ensures
        forall|i: int|
            0 <= i < gemtext(base, text).len() ==> !ends_with_cr(
                #[trigger] line_text(gemtext(base, text)[i]),
            ),
{
    lemma_text_lines_no_cr(text, 0);
    lemma_parse_lines_no_cr(base, text_lines_from(text, 0), false);
}

/// The words of a sequence of lines, in order.
pub open spec fn words_of_lines(lines: Seq<Seq<char>>) -> Seq<Seq<char>>
    decreases lines.len(),
{
    if lines.len() == 0 {
        seq![]
    } else {
        words_from(lines[0], 0) + words_of_lines(lines.drop_first())
    }
}

/// Whether `w` is a word: not empty, no whitespace in it.
pub open spec fn is_word(w: Seq<char>) -> bool {
    w.len() > 0 && forall|k: int| 0 <= k < w.len() ==> !is_ws(#[trigger] w[k])
}

proof fn lemma_find_shift(x: Seq<char>, k: int, j: int, p: spec_fn(char) -> bool)
    requires
        0 <= k <= x.len(),
        0 <= j <= x.len() - k,
    ensures
        find_from(x, k + j, p) == k + find_from(x.skip(k), j, p),
    decreases x.len() - k - j,
{
    if k + j < x.len() {
        assert(x.skip(k)[j] == x[k + j]);
        if !p(x[k + j]) {
            lemma_find_shift(x, k, j + 1, p);
        }
    }
}

proof fn lemma_words_shift(x: Seq<char>, k: int, j: int)
    requires
        0 <= k <= x.len(),
        0 <= j <= x.len() - k,
    ensures
        words_from(x, k + j) == words_from(x.skip(k), j),
    decreases x.len() - k - j,
{
    let y = x.skip(k);
    if k + j < x.len() {
        assert(y[j] == x[k + j]);
        if is_ws(x[k + j]) {
            lemma_words_shift(x, k, j + 1);
        } else {
            lemma_find_shift(x, k, j, whitespace());
            lemma_find_from(y, j, whitespace());
            let e = find_from(y, j, whitespace());
            assert(x.subrange(k + j, k + e) =~= y.subrange(j, e));
            lemma_words_shift(x, k, e);
        }
    }
}

proof fn lemma_find_before_ws(s: Seq<char>, e: int, i: int)
    requires
        0 <= i <= e < s.len(),
        is_ws(s[e]),
    ensures
        find_from(s, i, whitespace()) == find_from(s.take(e), i, whitespace()),
    decreases e - i,
{
    if i < e {
        assert(s.take(e)[i] == s[i]);
        if !whitespace()(s[i]) {
            lemma_find_before_ws(s, e, i + 1);
        }
    } else {
        assert(whitespace()(s[e]));
    }
}

proof fn lemma_words_split(s: Seq<char>, e: int, i: int)
    requires
        0 <= i <= e < s.len(),
        is_ws(s[e]),
    ensures
        words_from(s, i) == words_from(s.take(e), i) + words_from(s, e + 1),
    decreases e - i,
{
    let a = s.take(e);
    if i == e {
        assert(words_from(a, i) == Seq::<Seq<char>>::empty());
        assert(words_from(s, i) == words_from(s, e + 1));
        assert(words_from(s, e + 1) =~= Seq::<Seq<char>>::empty() + words_from(s, e + 1));
    } else {
        assert(a[i] == s[i]);
        if is_ws(s[i]) {
            lemma_words_split(s, e, i + 1);
        } else {
            lemma_find_before_ws(s, e, i);
            lemma_find_from(a, i, whitespace());
            let f = find_from(a, i, whitespace());
            assert(s.subrange(i, f) =~= a.subrange(i, f));
            lemma_words_split(s, e, f);
            assert(seq![a.subrange(i, f)] + (words_from(a, f) + words_from(s, e + 1)) =~= (seq![
                a.subrange(i, f),
            ] + words_from(a, f)) + words_from(s, e + 1));
        }
    }
}

proof fn lemma_word_alone(w: Seq<char>)
    requires
        is_word(w),
    ensures
        words_from(w, 0) == seq![w],
{
    lemma_find_from(w, 0, whitespace());
    let e = find_from(w, 0, whitespace());
    if e < w.len() {
        assert(!is_ws(w[e]));
    }
    assert(w.subrange(0, w.len() as int) =~= w);
    assert(words_from(w, w.len() as int) == Seq::<Seq<char>>::empty());
    assert(seq![w] + Seq::<Seq<char>>::empty() =~= seq![w]);
}

proof fn lemma_words_are_words(s: Seq<char>, i: int)
    ensures
        forall|j: int| 0 <= j < words_from(s, i).len() ==> is_word(#[trigger] words_from(s, i)[j]),
    decreases s.len() - i,
{
    if !(i < 0 || i >= s.len()) {
        if is_ws(s[i]) {
            lemma_words_are_words(s, i + 1);
            assert(words_from(s, i) == words_from(s, i + 1));
        } else {
            lemma_find_from(s, i + 1, whitespace());
            assert(!whitespace()(s[i]));
            assert(find_from(s, i, whitespace()) == find_from(s, i + 1, whitespace()));
            let e = find_from(s, i, whitespace());
            lemma_find_from(s, i, whitespace());
            lemma_words_are_words(s, e);
            let all = words_from(s, i);
            let w = s.subrange(i, e);
            assert forall|k: int| 0 <= k < w.len() implies !is_ws(#[trigger] w[k]) by {
                assert(w[k] == s[i + k]);
                assert(!whitespace()(s[i + k]));
            }
            assert(all == seq![w] + words_from(s, e));
            assert forall|j: int| 0 <= j < all.len() implies is_word(#[trigger] all[j]) by {
                if j == 0 {
                    assert(all[0] == w);
                }
                if j > 0 {
                    assert(all[j] == words_from(s, e)[j - 1]);
                }
            }
        }
    }
}

proof fn lemma_words_of_lines_append(x: Seq<Seq<char>>, y: Seq<Seq<char>>)
    ensures
        words_of_lines(x + y) == words_of_lines(x) + words_of_lines(y),
    decreases x.len(),
{
    if x.len() == 0 {
        assert(x + y =~= y);
        assert(Seq::<Seq<char>>::empty() + words_of_lines(y) =~= words_of_lines(y));
    } else {
        assert((x + y).drop_first() =~= x.drop_first() + y);
        assert((x + y)[0] == x[0]);
        lemma_words_of_lines_append(x.drop_first(), y);
        assert(words_from(x[0], 0) + (words_of_lines(x.drop_first()) + words_of_lines(y)) =~= (
        words_from(x[0], 0) + words_of_lines(x.drop_first())) + words_of_lines(y));
    }
}

proof fn lemma_words_of_one_line(l: Seq<char>)
    ensures
        words_of_lines(seq![l]) == words_from(l, 0),
{
    assert(seq![l].drop_first() =~= Seq::<Seq<char>>::empty());
    assert(seq![l][0] == l);
    assert(words_of_lines(Seq::<Seq<char>>::empty()) == Seq::<Seq<char>>::empty());
    assert(words_of_lines(seq![l]) == words_from(l, 0) + words_of_lines(seq![l].drop_first()));
    assert(words_from(l, 0) + Seq::<Seq<char>>::empty() =~= words_from(l, 0));
}

proof fn lemma_pack_keeps_words(cur: Seq<char>, words: Seq<Seq<char>>, width: usize)
    requires
        forall|i: int| 0 <= i < words.len() ==> is_word(#[trigger] words[i]),
    ensures
        words_of_lines(pack(cur, words, width)) == words_from(cur, 0) + words,
    decreases words.len(),
{
    if words.len() == 0 {
        if cur.len() == 0 {
            assert(words_from(cur, 0) == Seq::<Seq<char>>::empty());
            assert(Seq::<Seq<char>>::empty() + words =~= words);
        } else {
            lemma_words_of_one_line(cur);
            assert(words_from(cur, 0) + words =~= words_from(cur, 0));
        }
    } else {
        let w = words[0];
        let rest = words.drop_first();
        assert(is_word(w));
        assert forall|i: int| 0 <= i < rest.len() implies is_word(#[trigger] rest[i]) by {
            assert(rest[i] == words[i + 1]);
        }
        lemma_word_alone(w);
        if cur.len() == 0 {
            lemma_pack_keeps_words(w, rest, width);
            assert(words_from(cur, 0) == Seq::<Seq<char>>::empty());
            assert(seq![w] + rest =~= words);
            assert(Seq::<Seq<char>>::empty() + words =~= words);
        } else if crate::ui::fits(cur, w, width) {
            let joined = cur + seq![' '] + w;
            lemma_pack_keeps_words(joined, rest, width);
            assert(joined[cur.len() as int] == ' ');
            lemma_words_split(joined, cur.len() as int, 0);
            assert(joined.take(cur.len() as int) =~= cur);
            lemma_words_shift(joined, cur.len() + 1int, 0);
            assert(joined.skip(cur.len() + 1int) =~= w);
            assert(words_from(cur, 0) + seq![w] + rest =~= words_from(cur, 0) + words);
        } else {
            lemma_pack_keeps_words(w, rest, width);
            lemma_words_of_one_line(cur);
            lemma_words_of_lines_append(seq![cur], pack(w, rest, width));
            assert(words_from(cur, 0) + (seq![w] + rest) =~= words_from(cur, 0) + words);
        }
    }
}

proof fn lemma_pack_paragraphs_keeps_words(ps: Seq<Seq<char>>, width: usize)
    ensures
        words_of_lines(pack_paragraphs(ps, width)) == words_of_lines(ps),
    decreases ps.len(),
{
    if ps.len() > 0 {
        let ws = words_from(ps[0], 0);
        lemma_words_are_words(ps[0], 0);
        lemma_pack_keeps_words(seq![], ws, width);
        assert(words_from(Seq::<char>::empty(), 0) == Seq::<Seq<char>>::empty());
        assert(Seq::<Seq<char>>::empty() + ws =~= ws);
        lemma_pack_paragraphs_keeps_words(ps.drop_first(), width);
        lemma_words_of_lines_append(pack(seq![], ws, width), pack_paragraphs(ps.drop_first(), width));
    }
}

proof fn lemma_split_keeps_words(s: Seq<char>, i: int)
    requires
        0 <= i <= s.len(),
    ensures
        words_of_lines(split_lines_from(s, i)) == words_from(s, i),
    decreases s.len() + 1 - i,
{
    lemma_find_from(s, i, char_is('\n'));
    let e = find_from(s, i, char_is('\n'));
    let piece = s.subrange(i, e);
    let rest = split_lines_from(s, e + 1);
    assert(split_lines_from(s, i) == seq![piece] + rest);
    assert((seq![piece] + rest).drop_first() =~= rest);
    assert((seq![piece] + rest)[0] == piece);
    if e < s.len() {
        lemma_split_keeps_words(s, e + 1);
        assert(char_is('\n')(s[e]));
        lemma_words_split(s, e, i);
        lemma_words_shift(s.take(e), i, 0);
        assert(s.take(e).skip(i) =~= piece);
    } else {
        assert(rest == Seq::<Seq<char>>::empty());
        assert(words_of_lines(rest) == Seq::<Seq<char>>::empty());
        lemma_words_shift(s, i, 0);
        assert(s.skip(i) =~= piece);
        assert(words_from(piece, 0) + Seq::<Seq<char>>::empty() =~= words_from(piece, 0));
    }
}

/// Wrapping keeps the words: the words of the wrapped lines are the words of the text,
/// in order, none split and none lost.
pub proof fn law_wrap_keeps_words(text: Seq<char>, width: usize)
    requires
        width > 0,
    ensures
        words_of_lines(wrap(text, width)) == words_from(text, 0),
{
    lemma_split_keeps_words(text, 0);
    lemma_pack_paragraphs_keeps_words(split_lines_from(text, 0), width);
    if pack_paragraphs(split_lines_from(text, 0), width).len() == 0 {
        lemma_words_of_one_line(Seq::<char>::empty());
        assert(words_from(Seq::<char>::empty(), 0) == Seq::<Seq<char>>::empty());
        assert(words_of_lines(pack_paragraphs(split_lines_from(text, 0), width)) == Seq::<Seq<char>>::empty());
    }
}

/// The test "holds a word".
pub open spec fn with_words() -> spec_fn(Seq<char>) -> bool {
    |p: Seq<char>| words_from(p, 0).len() > 0
}

/// Wrapping to `width` columns, as a function.
pub open spec fn wrapped_to(width: usize) -> spec_fn(Seq<char>) -> Seq<Seq<char>> {
    |p: Seq<char>| wrap(p, width)
}

spec fn no_newline(p: Seq<char>) -> bool {
    forall|k: int| 0 <= k < p.len() ==> p[k] != '\n'
}

proof fn lemma_pack_nonempty(cur: Seq<char>, words: Seq<Seq<char>>, width: usize)
    requires
        cur.len() > 0,
    ensures
        pack(cur, words, width).len() > 0,
    decreases words.len(),
{
    if words.len() > 0 {
        let w = words[0];
        let rest = words.drop_first();
        if fits(cur, w, width) {
            lemma_pack_nonempty(cur + seq![' '] + w, rest, width);
        }
    }
}

proof fn lemma_split_pieces_no_newline(s: Seq<char>, i: int)
    ensures
        forall|k: int|
            0 <= k < split_lines_from(s, i).len() ==> no_newline(#[trigger] split_lines_from(s, i)[k]),
    decreases s.len() + 1 - i,
{
    if !(i < 0 || i > s.len()) {
        lemma_find_from(s, i, char_is('\n'));
        let e = find_from(s, i, char_is('\n'));
        let piece = s.subrange(i, e);
        lemma_split_pieces_no_newline(s, e + 1);
        assert forall|m: int| 0 <= m < piece.len() implies piece[m] != '\n' by {
            assert(piece[m] == s[i + m]);
            assert(!char_is('\n')(s[i + m]));
        }
        let all = split_lines_from(s, i);
        assert(all == seq![piece] + split_lines_from(s, e + 1));
        assert forall|k: int| 0 <= k < all.len() implies no_newline(#[trigger] all[k]) by {
            if k > 0 {
                assert(all[k] == split_lines_from(s, e + 1)[k - 1]);
            } else {
                assert(all[k] == piece);
            }
        }
    }
}

proof fn lemma_wrap_piece(p: Seq<char>, width: usize)
    requires
        width > 0,
        no_newline(p),
    ensures
        with_words()(p) ==> wrap(p, width) == pack(seq![], words_from(p, 0), width),
        with_words()(p) ==> wrap(p, width).len() > 0,
        !with_words()(p) ==> pack(seq![], words_from(p, 0), width) == Seq::<Seq<char>>::empty(),
        pack_paragraphs(split_lines_from(p, 0), width) == pack(seq![], words_from(p, 0), width),
{
    lemma_find_from(p, 0, char_is('\n'));
    let e = find_from(p, 0, char_is('\n'));
    if e < p.len() {
        assert(char_is('\n')(p[e]));
    }
    assert(p.subrange(0, p.len() as int) =~= p);
    assert(split_lines_from(p, p.len() + 1int) == Seq::<Seq<char>>::empty());
    assert(split_lines_from(p, 0) =~= seq![p]);
    let ws = words_from(p, 0);
    assert(seq![p].drop_first() =~= Seq::<Seq<char>>::empty());
    assert(pack_paragraphs(seq![p], width) == pack(seq![], ws, width) + pack_paragraphs(
        Seq::<Seq<char>>::empty(),
        width,
    ));
    assert(pack(seq![], ws, width) + Seq::<Seq<char>>::empty() =~= pack(seq![], ws, width));
    if ws.len() > 0 {
        lemma_words_are_words(p, 0);
        assert(is_word(ws[0]));
        lemma_pack_nonempty(ws[0], ws.drop_first(), width);
    }
}

proof fn lemma_pack_paragraphs_by_piece(ps: Seq<Seq<char>>, width: usize)
    requires
        width > 0,
        forall|k: int| 0 <= k < ps.len() ==> no_newline(#[trigger] ps[k]),
    ensures
        pack_paragraphs(ps, width) == ps.filter(with_words()).map_values(wrapped_to(width)).flatten(),
        pack_paragraphs(ps, width).len() == 0 <==> ps.filter(with_words()).len() == 0,
    decreases ps.len(),
{
    let hw = with_words();
    let f = wrapped_to(width);
    if ps.len() == 0 {
        ps.lemma_filter_len(hw);
        assert(ps.filter(hw).map_values(f) =~= Seq::<Seq<Seq<char>>>::empty());
    } else {
        let p0 = ps[0];
        let rest = ps.drop_first();
        assert(ps =~= seq![p0] + rest);
        rest.lemma_filter_prepend(p0, hw);
        assert forall|k: int| 0 <= k < rest.len() implies no_newline(#[trigger] rest[k]) by {
            assert(rest[k] == ps[k + 1]);
        }
        lemma_pack_paragraphs_by_piece(rest, width);
        lemma_wrap_piece(p0, width);
        let fr = rest.filter(hw);
        if hw(p0) {
            assert(ps.filter(hw) =~= seq![p0] + fr);
            let m = (seq![p0] + fr).map_values(f);
            assert(m.first() == wrap(p0, width));
            assert(m.drop_first() =~= fr.map_values(f));
        } else {
            assert(ps.filter(hw) =~= fr);
            assert(pack_paragraphs(ps, width) =~= pack_paragraphs(rest, width));
        }
    }
}

/// Wrapping goes line by line: each line of the text that holds a word is wrapped on its
/// own and the results follow one another in order, lines without a word give nothing,
/// and a text with no word at all gives one empty line. So a line break in the text
/// always ends a wrapped line, and no wrapped line takes words from two lines.
pub proof fn law_wrap_by_paragraphs(text: Seq<char>, width: usize)
    requires
        width > 0,
    ensures
        ({
            let ps = split_lines_from(text, 0).filter(with_words());
            wrap(text, width) == if ps.len() == 0 {
                seq![Seq::<char>::empty()]
            } else {
                ps.map_values(wrapped_to(width)).flatten()
            }
        }),
{
    lemma_split_pieces_no_newline(text, 0);
    lemma_pack_paragraphs_by_piece(split_lines_from(text, 0), width);
}

/// Whether the line `r` is a shorter line and a word joined by one space, with the widths
/// of the two and the space adding up to at most `width`.
pub open spec fn last_join_fits(r: Seq<char>, width: usize) -> bool {
    exists|a: Seq<char>, b: Seq<char>|
        #![trigger str_width(a), str_width(b)]
        r == a + seq![' '] + b && is_word(b) && str_width(a) + 1 + str_width(b) <= width
}

proof fn lemma_words_join(a: Seq<char>, b: Seq<char>)
    requires
        is_word(b),
    ensures
        words_from(a + seq![' '] + b, 0) == words_from(a, 0) + seq![b],
{
    let s = a + seq![' '] + b;
    let e = a.len() as int;
    assert(s[e] == ' ');
    lemma_words_split(s, e, 0);
    assert(s.take(e) =~= a);
    lemma_words_shift(s, e + 1, 0);
    assert(s.skip(e + 1) =~= b);
    lemma_word_alone(b);
}

proof fn lemma_pack_lines_fit(cur: Seq<char>, words: Seq<Seq<char>>, width: usize)
    requires
        cur.len() == 0 || is_word(cur) || last_join_fits(cur, width),
        forall|k: int| 0 <= k < words.len() ==> is_word(#[trigger] words[k]),
    ensures
        forall|i: int|
            0 <= i < pack(cur, words, width).len() ==> is_word(#[trigger] pack(cur, words, width)[i])
                || last_join_fits(pack(cur, words, width)[i], width),
    decreases words.len(),
{
    let out = pack(cur, words, width);
    if words.len() == 0 {
        if cur.len() > 0 {
            assert(out == seq![cur]);
            assert(forall|i: int|
                0 <= i < out.len() ==> is_word(#[trigger] out[i]) || last_join_fits(out[i], width));
        } else {
            assert(out == Seq::<Seq<char>>::empty());
        }
    } else {
        let w = words[0];
        let rest = words.drop_first();
        assert(is_word(w));
        assert forall|k: int| 0 <= k < rest.len() implies is_word(#[trigger] rest[k]) by {
            assert(rest[k] == words[k + 1]);
        }
        if cur.len() == 0 {
            lemma_pack_lines_fit(w, rest, width);
            assert(out == pack(w, rest, width));
            assert(forall|i: int|
                0 <= i < out.len() ==> is_word(#[trigger] out[i]) || last_join_fits(out[i], width));
        } else if fits(cur, w, width) {
            let c2 = cur + seq![' '] + w;
            assert(str_width(cur) + 1 + str_width(w) <= width);
            assert(last_join_fits(c2, width));
            assert(out == pack(c2, rest, width));
            lemma_pack_lines_fit(c2, rest, width);
            assert(forall|i: int|
                0 <= i < out.len() ==> is_word(#[trigger] out[i]) || last_join_fits(out[i], width));
        } else {
            lemma_pack_lines_fit(w, rest, width);
            let tail = pack(w, rest, width);
            assert(out == seq![cur] + tail);
            assert forall|i: int| 0 <= i < out.len() implies is_word(#[trigger] out[i])
                || last_join_fits(out[i], width) by {
                if i > 0 {
                    assert(out[i] == tail[i - 1]);
                }
            }
        }
    }
}

proof fn lemma_pack_paragraphs_lines_fit(ps: Seq<Seq<char>>, width: usize)
    ensures
        forall|i: int|
            0 <= i < pack_paragraphs(ps, width).len() ==> is_word(
                #[trigger] pack_paragraphs(ps, width)[i],
            ) || last_join_fits(pack_paragraphs(ps, width)[i], width),
    decreases ps.len(),
{
    if ps.len() > 0 {
        let ws = words_from(ps[0], 0);
        lemma_words_are_words(ps[0], 0);
        lemma_pack_lines_fit(seq![], ws, width);
        lemma_pack_paragraphs_lines_fit(ps.drop_first(), width);
        let head = pack(seq![], ws, width);
        let tail = pack_paragraphs(ps.drop_first(), width);
        let out = pack_paragraphs(ps, width);
        assert(out == head + tail);
        assert forall|i: int| 0 <= i < out.len() implies is_word(#[trigger] out[i]) || last_join_fits(
            out[i],
            width,
        ) by {
            if i < head.len() {
                assert(out[i] == head[i]);
            } else {
                assert(out[i] == tail[i - head.len()]);
            }
        }
    }
}

/// Every wrapped line fits its width as the line is measured, or holds a single word: a
/// line of two or more words is a shorter line and one more word, joined by one space,
/// whose widths and the space add up to at most `width`. The only empty line is the one
/// a text without words gives.
pub proof fn law_wrapped_lines_fit(text: Seq<char>, width: usize)
    ensures
        forall|i: int|
            0 <= i < wrap(text, width).len() ==> {
                ||| wrap(text, width)[i].len() == 0
                ||| is_word(#[trigger] wrap(text, width)[i])
                ||| last_join_fits(wrap(text, width)[i], width)
            },
{
    lemma_pack_paragraphs_lines_fit(split_lines_from(text, 0), width);
}

/// Where widths add up over a space (the width of `a`, a space and `b` is that of `a`, plus
/// one, plus that of `b`) and an empty line has no width, every wrapped line is at most
/// `width` columns wide, unless it is a single word.
pub proof fn law_wrapped_lines_within_width(text: Seq<char>, width: usize)
    requires
        forall|a: Seq<char>, b: Seq<char>|
            #[trigger] str_width(a + seq![' '] + b) == str_width(a) + 1 + str_width(b),
        str_width(Seq::<char>::empty()) == 0,
    ensures
        forall|i: int|
            0 <= i < wrap(text, width).len() ==> str_width(#[trigger] wrap(text, width)[i]) <= width
                || is_word(wrap(text, width)[i]),
{
    law_wrapped_lines_fit(text, width);
    assert forall|i: int| 0 <= i < wrap(text, width).len() implies str_width(
        #[trigger] wrap(text, width)[i],
    ) <= width || is_word(wrap(text, width)[i]) by {
        let r = wrap(text, width)[i];
        if r.len() == 0 {
            assert(r =~= Seq::<char>::empty());
        } else if !is_word(r) {
            let (a, b) = choose|a: Seq<char>, b: Seq<char>|
                #![trigger str_width(a), str_width(b)]
                r == a + seq![' '] + b && is_word(b) && str_width(a) + 1 + str_width(b) <= width;
            assert(str_width(a + seq![' '] + b) == str_width(a) + 1 + str_width(b));
        }
    }
}

proof fn lemma_pack_first_word(cur: Seq<char>, words: Seq<Seq<char>>, width: usize)
    requires
        words_from(cur, 0).len() > 0,
        forall|k: int| 0 <= k < words.len() ==> is_word(#[trigger] words[k]),
    ensures
        pack(cur, words, width).len() > 0,
        words_from(pack(cur, words, width)[0], 0).len() > 0,
        words_from(pack(cur, words, width)[0], 0)[0] == words_from(cur, 0)[0],
    decreases words.len(),
{
    assert(cur.len() > 0) by {
        if cur.len() == 0 {
            assert(words_from(cur, 0) == Seq::<Seq<char>>::empty());
        }
    }
    if words.len() > 0 {
        let w = words[0];
        let rest = words.drop_first();
        assert forall|k: int| 0 <= k < rest.len() implies is_word(#[trigger] rest[k]) by {
            assert(rest[k] == words[k + 1]);
        }
        if fits(cur, w, width) {
            let c2 = cur + seq![' '] + w;
            lemma_words_join(cur, w);
            assert(words_from(c2, 0)[0] == words_from(cur, 0)[0]);
            lemma_pack_first_word(c2, rest, width);
        } else {
            assert(pack(cur, words, width) == seq![cur] + pack(w, rest, width));
        }
    } else {
        assert(pack(cur, words, width) == seq![cur]);
    }
}

proof fn lemma_pack_greedy(cur: Seq<char>, words: Seq<Seq<char>>, width: usize)
    requires
        cur.len() == 0 || words_from(cur, 0).len() > 0,
        forall|k: int| 0 <= k < words.len() ==> is_word(#[trigger] words[k]),
    ensures
        forall|i: int|
            0 <= i && i + 1 < pack(cur, words, width).len() ==> !(str_width(
                #[trigger] pack(cur, words, width)[i],
            ) + 1 + str_width(words_from(pack(cur, words, width)[i + 1], 0)[0]) <= width),
    decreases words.len(),
{
    let out = pack(cur, words, width);
    if words.len() == 0 {
        if cur.len() > 0 {
            assert(out == seq![cur]);
        } else {
            assert(out == Seq::<Seq<char>>::empty());
        }
    } else {
        let w = words[0];
        let rest = words.drop_first();
        assert(is_word(w));
        lemma_word_alone(w);
        assert forall|k: int| 0 <= k < rest.len() implies is_word(#[trigger] rest[k]) by {
            assert(rest[k] == words[k + 1]);
        }
        if cur.len() == 0 {
            lemma_pack_greedy(w, rest, width);
            assert(out == pack(w, rest, width));
            assert(forall|i: int|
                0 <= i && i + 1 < out.len() ==> !(str_width(#[trigger] out[i]) + 1 + str_width(
                    words_from(out[i + 1], 0)[0],
                ) <= width));
        } else if fits(cur, w, width) {
            let c2 = cur + seq![' '] + w;
            lemma_words_join(cur, w);
            assert(out == pack(c2, rest, width));
            lemma_pack_greedy(c2, rest, width);
            assert(forall|i: int|
                0 <= i && i + 1 < out.len() ==> !(str_width(#[trigger] out[i]) + 1 + str_width(
                    words_from(out[i + 1], 0)[0],
                ) <= width));
        } else {
            lemma_pack_greedy(w, rest, width);
            lemma_pack_first_word(w, rest, width);
            let tail = pack(w, rest, width);
            assert(out == seq![cur] + tail);
            assert forall|i: int| 0 <= i && i + 1 < out.len() implies !(str_width(
                #[trigger] out[i],
            ) + 1 + str_width(words_from(out[i + 1], 0)[0]) <= width) by {
                assert(out[i + 1] == tail[i]);
                if i > 0 {
                    assert(out[i] == tail[i - 1]);
                } else {
                    assert(out[0] == cur);
                    assert(words_from(tail[0], 0)[0] == w);
                }
            }
        }
    }
}

/// Wrapping is greedy: within one line of text, a wrapped line ends only where the next
/// word does not fit after it, one space between them.
pub proof fn law_wrap_is_greedy(text: Seq<char>, width: usize)
    requires
        width > 0,
        forall|k: int| 0 <= k < text.len() ==> text[k] != '\n',
    ensures
        forall|i: int|
            0 <= i && i + 1 < wrap(text, width).len() ==> !(str_width(
                #[trigger] wrap(text, width)[i],
            ) + 1 + str_width(words_from(wrap(text, width)[i + 1], 0)[0]) <= width),
{
    lemma_wrap_piece(text, width);
    let ws = words_from(text, 0);
    lemma_words_are_words(text, 0);
    lemma_pack_greedy(seq![], ws, width);
}

/// How each kind of line is drawn at `width` columns: text is wrapped to the width; a link
/// shows `=> ` and its label; a header its level in hash signs, a space and its text;
/// list items and quotes are wrapped two columns narrower (to no column where the screen
/// is narrower than that) and each row gets `* ` or `> ` in front; preformatted text is
/// one row as it is.
pub proof fn law_drawn_rows(l: LineSpec, width: usize)
    ensures
        ({
            let rows = drawn_lines(l, width);
            let narrow: usize = if width >= 2 {
                (width - 2) as usize
            } else {
                0
            };
            match l {
                LineSpec::Text(t) => rows == wrap(t, width),
                LineSpec::Link(_, label) => rows == seq![seq!['=', '>', ' '] + label],
                LineSpec::Header(n, t) => {
                    &&& rows.len() == 1
                    &&& rows[0].len() == n + 1 + t.len()
                    &&& forall|i: int| 0 <= i < n ==> #[trigger] rows[0][i] == '#'
                    &&& rows[0][n as int] == ' '
                    &&& rows[0].skip(n + 1) == t
                },
                LineSpec::ListItem(t) => {
                    &&& rows.len() == wrap(t, narrow).len()
                    &&& forall|i: int|
                        0 <= i < rows.len() ==> #[trigger] rows[i] == seq!['*', ' '] + wrap(
                            t,
                            narrow,
                        )[i]
                },
                LineSpec::Quote(t) => {
                    &&& rows.len() == wrap(t, narrow).len()
                    &&& forall|i: int|
                        0 <= i < rows.len() ==> #[trigger] rows[i] == seq!['>', ' '] + wrap(
                            t,
                            narrow,
                        )[i]
                },
                LineSpec::Preformatted(t) => rows == seq![t],
            }
        }),
{
    reveal_strlit("=> ");
    reveal_strlit("* ");
    reveal_strlit("> ");
    reveal_strlit(" ");
    assert("=> "@ =~= seq!['=', '>', ' ']);
    assert("* "@ =~= seq!['*', ' ']);
    assert("> "@ =~= seq!['>', ' ']);
    match l {
        LineSpec::Header(n, t) => {
            let r = hashes(n as nat) + " "@ + t;
            assert(r.skip(n + 1) =~= t);
            assert(r[n as int] == ' ');
        },
        _ => {},
    }
}

/// A quote or list row fits the screen: where widths add up over a space, a one-character
/// marker is one column wide and an empty line none, every row of a quote or list item at
/// a width of at least two columns is at most that wide, unless it holds a single word
/// after its marker.
pub proof fn law_marked_rows_within_width(t: Seq<char>, width: usize, quote: bool)
    requires
        width >= 2,
        forall|a: Seq<char>, b: Seq<char>|
            #[trigger] str_width(a + seq![' '] + b) == str_width(a) + 1 + str_width(b),
        str_width(Seq::<char>::empty()) == 0,
        str_width(seq!['>']) == 1,
        str_width(seq!['*']) == 1,
    ensures
        ({
            let l = if quote {
                LineSpec::Quote(t)
            } else {
                LineSpec::ListItem(t)
            };
            let m = if quote {
                '>'
            } else {
                '*'
            };
            forall|i: int|
                0 <= i < drawn_lines(l, width).len() ==> str_width(
                    #[trigger] drawn_lines(l, width)[i],
                ) <= width || (drawn_lines(l, width)[i] == seq![m, ' '] + drawn_lines(
                    l,
                    width,
                )[i].skip(2) && is_word(drawn_lines(l, width)[i].skip(2)))
        }),
{
    let l = if quote {
        LineSpec::Quote(t)
    } else {
        LineSpec::ListItem(t)
    };
    let m = if quote {
        '>'
    } else {
        '*'
    };
    let narrow = (width - 2) as usize;
    law_drawn_rows(l, width);
    law_wrapped_lines_within_width(t, narrow);
    let rows = drawn_lines(l, width);
    assert forall|i: int| 0 <= i < rows.len() implies str_width(#[trigger] rows[i]) <= width || (
    rows[i] == seq![m, ' '] + rows[i].skip(2) && is_word(rows[i].skip(2))) by {
        let x = wrap(t, narrow)[i];
        assert(rows[i] == seq![m, ' '] + x);
        assert(seq![m, ' '] + x =~= seq![m] + seq![' '] + x);
        assert(str_width(seq![m] + seq![' '] + x) == str_width(seq![m]) + 1 + str_width(x));
        assert(rows[i].skip(2) =~= x);
    }
}

/// The columns the characters of `s` take, one by one (a character without a width takes
/// none).
pub open spec fn columns(s: Seq<char>) -> int
    decreases s.len(),
{
    if s.len() == 0 {
        0
    } else {
        columns(s.drop_last()) + match char_width(s.last()) {
            Some(w) => w as int,
            None => 0,
        }
    }
}

proof fn lemma_fitting_prefix_longest(s: Seq<char>, max: int, i: int, used: int)
    requires
        0 <= i <= s.len(),
        used == columns(s.take(i)),
        used <= max,
    ensures
        columns(s.take(fitting_prefix(s, max, i, used))) <= max,
        fitting_prefix(s, max, i, used) < s.len() ==> columns(
            s.take(fitting_prefix(s, max, i, used) + 1),
        ) > max,
    decreases s.len() - i,
{
    if i < s.len() {
        assert(s.take(i + 1).drop_last() =~= s.take(i));
        assert(s.take(i + 1).last() == s[i]);
        let w = match char_width(s[i]) {
            Some(w) => w as int,
            None => 0,
        };
        assert(columns(s.take(i + 1)) == used + w);
        if used + w <= max {
            lemma_fitting_prefix_longest(s, max, i + 1, used + w);
        }
    } else {
        assert(s.take(i) =~= s.take(s.len() as int));
    }
}

/// Cutting text to a width keeps the longest start of it whose characters fit: they take
/// at most `max_width` columns, and one character more would not fit.
pub proof fn law_truncate_keeps_longest_fitting_start(s: Seq<char>, max_width: usize)
    ensures
        columns(truncated(s, max_width)) <= max_width,
        truncated(s, max_width).len() < s.len() ==> columns(
            s.take(truncated(s, max_width).len() + 1int),
        ) > max_width,
{
    assert(s.take(0) =~= Seq::<char>::empty());
    lemma_fitting_prefix(s, max_width as int, 0, 0);
    lemma_fitting_prefix_longest(s, max_width as int, 0, 0);
}

/// The rows of a page, in order, are the rows of its lines: a line adds the rows it is
/// drawn as, each with the line's style (a level-1 header its own, other headers theirs,
/// links, preformatted text, and plain for the rest) and, for a link line, the number of
/// links before it.
pub proof fn law_rows_follow_lines(content: Seq<LineSpec>, l: LineSpec, width: usize)
    ensures
        all_rows(Seq::<LineSpec>::empty(), width) == Seq::<RowSpec>::empty(),
        ({
            let before = all_rows(content, width);
            let after = all_rows(content.push(l), width);
            let drawn = drawn_lines(l, width);
            let style = match l {
                LineSpec::Header(n, _) => if n == 1 {
                    LineStyle::TopHeader
                } else {
                    LineStyle::Header
                },
                LineSpec::Link(_, _) => LineStyle::Link,
                LineSpec::Preformatted(_) => LineStyle::Preformatted,
                _ => LineStyle::Plain,
            };
            &&& after.len() == before.len() + drawn.len()
            &&& after.take(before.len() as int) == before
            &&& forall|k: int|
                0 <= k < drawn.len() ==> #[trigger] after[before.len() + k] == (RowSpec {
                    text: drawn[k],
                    style,
                    link: if l is Link {
                        Some(link_urls(content).len())
                    } else {
                        None
                    },
                })
        }),
{
    assert(content.push(l).drop_last() =~= content);
    assert(content.push(l).last() == l);
    let before = all_rows(content, width);
    let after = all_rows(content.push(l), width);
    assert(after.take(before.len() as int) =~= before);
}

/// The rows that show: they start at the scroll position and there are as many as fit
/// between the top and the bottom row of the screen, or as many as are left; the `k`-th
/// of them goes to screen row `k + 1` with the text and style of its row, and is marked
/// exactly when it belongs to the selected link.
pub proof fn law_visible_rows(
    content: Seq<LineSpec>,
    width: usize,
    scroll: usize,
    max_y: i32,
    selected: Option<usize>,
)
    ensures
        ({
            let all = all_rows(content, width);
            let shown = screen_rows(content, width, scroll, max_y, selected);
            let room = if max_y >= 2 {
                max_y - 2
            } else {
                0
            };
            let left = if all.len() >= scroll {
                all.len() - scroll
            } else {
                0
            };
            &&& shown.len() <= room
            &&& shown.len() <= left
            &&& (shown.len() == room || shown.len() == left)
            &&& forall|k: int|
                0 <= k < shown.len() ==> {
                    &&& #[trigger] shown[k].row == k + 1
                    &&& shown[k].text == all[scroll + k].text
                    &&& shown[k].style == all[scroll + k].style
                    &&& shown[k].selected <==> (selected is Some && all[scroll + k].link == Some(
                        selected->0 as nat,
                    ))
                }
        }),
{
}

/// The top row: a space, the loading state in brackets, " URL: " and the page's URL
/// ("EMPTY" without a page), cut to the screen's width.
pub proof fn law_header_row(loading: bool, url: Option<Seq<char>>, width: usize)
    ensures
        header_line(loading, url, width) == truncated(
            seq![' '] + (if loading {
                "[LOADING]"@
            } else {
                "[READY]"@
            }) + seq![' ', 'U', 'R', 'L', ':', ' '] + match url {
                Some(u) => u,
                None => "EMPTY"@,
            },
            width,
        ),
{
    reveal_strlit(" ");
    reveal_strlit(" URL: ");
    assert(" "@ =~= seq![' ']);
    assert(" URL: "@ =~= seq![' ', 'U', 'R', 'L', ':', ' ']);
}

/// The bottom row is exactly `width` characters where its text is shorter (spaces fill
/// it), and otherwise its text as cut to the width: the typed address after " OPEN URL: "
/// while editing, else the key help followed by " | LINK: " and the selected link's URL
/// where a link is selected.
pub proof fn law_footer_row(s: BrowserView, width: usize)
    ensures
        ({
            let text = if s.input_mode == InputMode::Editing {
                " OPEN URL: "@ + s.url_input
            } else {
                " G:Go B:Back F:Fwd TAB:Nav C-B:Book L:List Q:Quit"@ + match (
                    s.current_page,
                    s.selected_link_index,
                ) {
                    (Some(p), Some(i)) => if i < page_links(p).len() {
                        " | LINK: "@ + page_links(p)[i as int]
                    } else {
                        Seq::<char>::empty()
                    },
                    _ => Seq::<char>::empty(),
                }
            };
            let cut = truncated(text, width);
            let row = footer_line(s, width);
            &&& row.take(cut.len() as int) == cut
            &&& row.len() == if cut.len() < width {
                width as nat
            } else {
                cut.len()
            }
            &&& forall|k: int| cut.len() <= k < row.len() ==> #[trigger] row[k] == ' '
        }),
{
    let row = footer_line(s, width);
    let text = if s.input_mode == InputMode::Editing {
        " OPEN URL: "@ + s.url_input
    } else {
        " G:Go B:Back F:Fwd TAB:Nav C-B:Book L:List Q:Quit"@ + hovered_link(s)
    };
    let cut = truncated(text, width);
    assert(row.take(cut.len() as int) =~= cut);
}

/// The bookmark list shows the bookmarks in order from screen row 2, as many as fit above
/// the last row (none on a screen of three rows or fewer); each shows " > ", its URL and a
/// space, cut to the width, and the selected one is marked.
pub proof fn law_bookmark_list_rows(s: BrowserView, max_y: i32, width: usize)
    ensures
        ({
            let rows = bookmark_lines(s, max_y, width);
            let room = if max_y >= 3 {
                max_y - 3
            } else {
                0
            };
            &&& rows.len() == if s.bookmarks.len() < room {
                s.bookmarks.len() as int
            } else {
                room
            }
            &&& forall|k: int|
                0 <= k < rows.len() ==> {
                    &&& #[trigger] rows[k].row == k + 2
                    &&& rows[k].text == truncated(
                        seq![' ', '>', ' '] + s.bookmarks[k].url + seq![' '],
                        width,
                    )
                    &&& rows[k].selected <==> s.selected_bookmark_index == k
                }
        }),
{
    reveal_strlit(" > ");
    reveal_strlit(" ");
    assert(" > "@ =~= seq![' ', '>', ' ']);
    assert(" "@ =~= seq![' ']);
}

/// The help screen: its lines go one under the other from two rows above the middle row,
/// each centred, the free columns split in two with the halves rounded toward zero (as
/// integer division does).
pub proof fn law_help_centred(max_y: i32, max_x: i32)
    ensures
        help_layout(max_y, max_x).len() == HELP_LINES,
        forall|i: int|
            0 <= i < HELP_LINES ==> {
                let (row, col, text) = #[trigger] help_layout(max_y, max_x)[i];
                let free = max_x - text.len();
                let mid = max_y as int;
                &&& text == help_text(i)
                &&& row == (if mid >= 0 {
                    mid / 2
                } else {
                    -((-mid) / 2)
                }) - 2 + i
                &&& free >= 0 ==> 2 * col <= free < 2 * col + 2
                &&& free < 0 ==> 2 * col - 2 < free <= 2 * col
            },
{
    assert forall|i: int| 0 <= i < HELP_LINES implies {
        let (row, col, text) = #[trigger] help_layout(max_y, max_x)[i];
        let free = max_x - text.len();
        let mid = max_y as int;
        &&& text == help_text(i)
        &&& row == (if mid >= 0 {
            mid / 2
        } else {
            -((-mid) / 2)
        }) - 2 + i
        &&& free >= 0 ==> 2 * col <= free < 2 * col + 2
        &&& free < 0 ==> 2 * col - 2 < free <= 2 * col
    } by {
        reveal_strlit("--- HELP ---");
        reveal_strlit("G: Go to URL | B: Back | F: Forward");
        reveal_strlit("TAB: Next Link | S-TAB: Prev Link");
        reveal_strlit("CTRL+B: Bookmark | L: List Bookmarks");
        reveal_strlit("H: Close Help | Q: Quit");
        assert(help_text(i).len() <= 36);
    }
}

/// Cutting text to a width keeps a start of it: nothing is added, reordered or replaced.
pub proof fn law_truncate_keeps_a_prefix(s: Seq<char>, max_width: usize)
    ensures
        truncated(s, max_width).len() <= s.len(),
        truncated(s, max_width) == s.subrange(0, truncated(s, max_width).len() as int),
{
    lemma_fitting_prefix(s, max_width as int, 0, 0);
}

} // verus!
