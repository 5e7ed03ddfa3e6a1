//! How the browser reacts to keys and to loaded pages. Each reaction changes the state
//! and may ask the caller for outside work (a fetch, storing the bookmarks, quitting).
use vstd::prelude::*;
use crate::domain::{
    Bookmark, BookmarkView, BrowserState, BrowserView, GeminiLine, InputMode, LineSpec, Page,
    bookmarks_view, lines_view, push_bounded, with_error,
};
use crate::text::{strings_view, chars_of, concat_str, contains_scheme_separator, contains_seq, string_from, trim, trim_bounds};
use crate::urls::{parse_url, url_parse_result};

verus! {

broadcast use vstd::string::group_string_axioms;

/// A key press, as far as the browser tells keys apart.
#[derive(Clone, Copy, PartialEq, Eq, Debug, Structural)]
pub enum Key {
    Char(char),
    Up,
    Down,
    BackTab,
    Backspace,
    Other,
}

/// Outside work that a reaction asks for.
#[derive(Debug)]
pub enum Command {
    /// Nothing to do.
    Nothing,
    /// Fetch `url` in the background and report the outcome with `request_id`.
    Fetch { url: String, request_id: u64 },
    /// Write the bookmarks out, then report with `BrowserState::save_bookmarks`.
    SaveBookmarks,
    /// Leave the browser.
    Quit,
}

/// The mathematical model of a `Command`.
pub enum CommandView {
    Nothing,
    Fetch(Seq<char>, u64),
    SaveBookmarks,
    Quit,
}

impl View for Command {
    type V = CommandView;

    open spec fn view(&self) -> CommandView {
        match self {
            Command::Nothing => CommandView::Nothing,
            Command::Fetch { url, request_id } => CommandView::Fetch(url@, *request_id),
            Command::SaveBookmarks => CommandView::SaveBookmarks,
            Command::Quit => CommandView::Quit,
        }
    }
}

/// The URLs of the link lines of a page, in order.
pub open spec fn link_urls(content: Seq<LineSpec>) -> Seq<Seq<char>>
    decreases content.len(),
{
    if content.len() == 0 {
        seq![]
    } else {
        let init = link_urls(content.drop_last());
        match content.last() {
            LineSpec::Link(u, _) => init.push(u),
            _ => init,
        }
    }
}

/// A page has no more links than lines.
pub proof fn lemma_link_urls_len(content: Seq<LineSpec>)
    ensures
        link_urls(content).len() <= content.len(),
    decreases content.len(),
{
    if content.len() > 0 {
        lemma_link_urls_len(content.drop_last());
    }
}

/// A page has no more links than lines.
pub proof fn lemma_page_links_len(p: Page)
    ensures
        page_links(p).len() <= p.content.len(),
{
    lemma_link_urls_len(lines_view(p.content@));
}

/// The URLs of the links of a page.
pub open spec fn page_links(p: Page) -> Seq<Seq<char>> {
    link_urls(lines_view(p.content@))
}

/// A new request starts: the next request id, and loading.
pub open spec fn begin_fetch(s: BrowserView) -> BrowserView {
    BrowserView { current_request_id: (s.current_request_id + 1) as u64, is_loading: true, ..s }
}

/// The reaction that fetches `url` as a new request.
pub open spec fn fetch_step(s: BrowserView, url: Seq<char>) -> (BrowserView, CommandView) {
    (begin_fetch(s), CommandView::Fetch(url, (s.current_request_id + 1) as u64))
}

/// Opening an address at start-up: a fetch of what it parses to, nothing where it does not
/// parse.
pub open spec fn open_address(s: BrowserView, address: Seq<char>) -> (BrowserView, CommandView) {
    match url_parse_result(address) {
        Some(u) => fetch_step(s, u),
        None => (s, CommandView::Nothing),
    }
}

/// The state in another input mode.
pub open spec fn in_mode(s: BrowserView, m: InputMode) -> BrowserView {
    BrowserView { input_mode: m, ..s }
}

/// One page back: the last page of the back history becomes the current one, and the
/// current one goes to the front of the forward history.
pub open spec fn go_back(s: BrowserView) -> BrowserView {
    if s.history_back.len() > 0 {
        BrowserView {
            history_back: s.history_back.drop_last(),
            history_forward: match s.current_page {
                Some(c) => seq![c] + s.history_forward,
                None => s.history_forward,
            },
            current_page: Some(s.history_back.last()),
            scroll_offset: 0,
            ..s
        }
    } else {
        s
    }
}

/// One page forward: the first page of the forward history becomes the current one, and
/// the current one goes to the back history.
pub open spec fn go_forward(s: BrowserView) -> BrowserView {
    if s.history_forward.len() > 0 {
        BrowserView {
            history_forward: s.history_forward.drop_first(),
            history_back: match s.current_page {
                Some(c) => push_bounded(s.history_back, c),
                None => s.history_back,
            },
            current_page: Some(s.history_forward[0]),
            scroll_offset: 0,
            ..s
        }
    } else {
        s
    }
}

/// The link after the selected one, cycling; the first one where none is selected.
pub open spec fn select_next_link(s: BrowserView) -> BrowserView {
    match s.current_page {
        Some(p) => {
            let n = page_links(p).len();
            if n > 0 {
                BrowserView {
                    selected_link_index: Some(
                        match s.selected_link_index {
                            Some(i) => ((i + 1) % (n as int)) as usize,
                            None => 0,
                        },
                    ),
                    ..s
                }
            } else {
                s
            }
        },
        None => s,
    }
}

/// The link before the selected one, cycling; the last one where none is selected.
pub open spec fn select_prev_link(s: BrowserView) -> BrowserView {
    match s.current_page {
        Some(p) => {
            let n = page_links(p).len();
            if n > 0 {
                BrowserView {
                    selected_link_index: Some(
                        match s.selected_link_index {
                            Some(i) => if i == 0 {
                                (n - 1) as usize
                            } else {
                                (i - 1) as usize
                            },
                            None => (n - 1) as usize,
                        },
                    ),
                    ..s
                }
            } else {
                s
            }
        },
        None => s,
    }
}

/// Following the selected link: a fetch of its URL, where a link is selected.
pub open spec fn open_selected_link(s: BrowserView) -> (BrowserView, CommandView) {
    match (s.current_page, s.selected_link_index) {
        (Some(p), Some(i)) => if i < page_links(p).len() {
            fetch_step(s, page_links(p)[i as int])
        } else {
            (s, CommandView::Nothing)
        },
        _ => (s, CommandView::Nothing),
    }
}

/// Bookmarking the current page: a bookmark whose URL and title are the page's URL is
/// added unless it is there already.
pub open spec fn bookmark_current(s: BrowserView) -> (BrowserView, CommandView) {
    match s.current_page {
        Some(p) => {
            let b = BookmarkView { url: p.url@, title: p.url@ };
            if s.bookmarks.contains(b) {
                (with_error(s, "Already bookmarked"@), CommandView::Nothing)
            } else {
                (BrowserView { bookmarks: s.bookmarks.push(b), ..s }, CommandView::SaveBookmarks)
            }
        },
        None => (s, CommandView::Nothing),
    }
}

/// The reaction to a key in normal mode.
pub open spec fn normal_step(s: BrowserView, key: Key) -> (BrowserView, CommandView) {
    match key {
        Key::Char('g') => (
            BrowserView { input_mode: InputMode::Editing, url_input: Seq::empty(), ..s },
            CommandView::Nothing,
        ),
        Key::Char('h') => (in_mode(s, InputMode::Help), CommandView::Nothing),
        Key::Char('l') => (in_mode(s, InputMode::Bookmarks), CommandView::Nothing),
        Key::Char('\u{2}') => bookmark_current(s),
        Key::Char('b') => (go_back(s), CommandView::Nothing),
        Key::Char('f') => (go_forward(s), CommandView::Nothing),
        Key::Char('\t') => (select_next_link(s), CommandView::Nothing),
        Key::BackTab => (select_prev_link(s), CommandView::Nothing),
        Key::Char('\n') => open_selected_link(s),
        Key::Up | Key::Char('k') => (
            BrowserView {
                scroll_offset: if s.scroll_offset > 0 {
                    (s.scroll_offset - 1) as usize
                } else {
                    0
                },
                ..s
            },
            CommandView::Nothing,
        ),
        Key::Down | Key::Char('j') => (
            BrowserView { scroll_offset: (s.scroll_offset + 1) as usize, ..s },
            CommandView::Nothing,
        ),
        _ => (s, CommandView::Nothing),
    }
}

/// What the typed address becomes: trimmed, and with `gemini://` in front where it names
/// no scheme.
pub open spec fn typed_target(input: Seq<char>) -> Seq<char> {
    if contains_seq(trim(input), "://"@) {
        trim(input)
    } else {
        "gemini://"@ + trim(input)
    }
}

/// Submitting the typed address: a fetch where it parses as a URL, an error where it does
/// not, nothing where it is blank.
pub open spec fn submit_address(s: BrowserView) -> (BrowserView, CommandView) {
    if trim(s.url_input).len() == 0 {
        (s, CommandView::Nothing)
    } else {
        match url_parse_result(typed_target(s.url_input)) {
            Some(u) => fetch_step(s, u),
            None => (with_error(s, "Invalid URL"@), CommandView::Nothing),
        }
    }
}

/// The reaction to a key while the address is typed.
pub open spec fn editing_step(s: BrowserView, key: Key) -> (BrowserView, CommandView) {
    match key {
        Key::Char('\n') => {
            let r = submit_address(s);
            (in_mode(r.0, InputMode::Normal), r.1)
        },
        Key::Char('\u{1b}') => (in_mode(s, InputMode::Normal), CommandView::Nothing),
        Key::Backspace | Key::Char('\u{7f}') => (
            BrowserView {
                url_input: if s.url_input.len() > 0 {
                    s.url_input.drop_last()
                } else {
                    s.url_input
                },
                ..s
            },
            CommandView::Nothing,
        ),
        Key::Char(c) => (BrowserView { url_input: s.url_input.push(c), ..s }, CommandView::Nothing),
        _ => (s, CommandView::Nothing),
    }
}

/// Opening the selected bookmark: a fetch where its URL parses.
pub open spec fn open_bookmark(s: BrowserView) -> (BrowserView, CommandView) {
    if s.selected_bookmark_index < s.bookmarks.len() {
        match url_parse_result(s.bookmarks[s.selected_bookmark_index as int].url) {
            Some(u) => fetch_step(s, u),
            None => (s, CommandView::Nothing),
        }
    } else {
        (s, CommandView::Nothing)
    }
}

/// Deleting the selected bookmark; the selection stays on the list.
pub open spec fn delete_bookmark(s: BrowserView) -> BrowserView {
    if s.bookmarks.len() > 0 {
        let rest = s.bookmarks.remove(s.selected_bookmark_index as int);
        let last = if rest.len() > 0 {
            (rest.len() - 1) as usize
        } else {
            0
        };
        BrowserView {
            bookmarks: rest,
            selected_bookmark_index: if s.selected_bookmark_index <= last {
                s.selected_bookmark_index
            } else {
                last
            },
            ..s
        }
    } else {
        s
    }
}

/// The reaction to a key on the bookmark list.
pub open spec fn bookmarks_step(s: BrowserView, key: Key) -> (BrowserView, CommandView) {
    match key {
        Key::Up => (
            BrowserView {
                selected_bookmark_index: if s.selected_bookmark_index > 0 {
                    (s.selected_bookmark_index - 1) as usize
                } else {
                    0
                },
                ..s
            },
            CommandView::Nothing,
        ),
        Key::Down => (
            if s.selected_bookmark_index + 1 < s.bookmarks.len() {
                BrowserView {
                    selected_bookmark_index: (s.selected_bookmark_index + 1) as usize,
                    ..s
                }
            } else {
                s
            },
            CommandView::Nothing,
        ),
        Key::Char('\n') => {
            let r = open_bookmark(s);
            (in_mode(r.0, InputMode::Normal), r.1)
        },
        Key::Char('d') => (delete_bookmark(s), CommandView::Nothing),
        _ => (in_mode(s, InputMode::Normal), CommandView::Nothing),
    }
}

/// The reaction to a key: the error message goes away, then the key acts as the input
/// mode says.
pub open spec fn input_step(s: BrowserView, key: Key) -> (BrowserView, CommandView) {
    let s0 = BrowserView { error_message: None, ..s };
    match s.input_mode {
        InputMode::Normal => normal_step(s0, key),
        InputMode::Editing => editing_step(s0, key),
        InputMode::Bookmarks => bookmarks_step(s0, key),
        InputMode::Help => (in_mode(s0, InputMode::Normal), CommandView::Nothing),
    }
}

/// Whether there is a current page and it has links.
pub open spec fn has_links(p: Option<Page>) -> bool {
    match p {
        Some(page) => page_links(page).len() > 0,
        None => false,
    }
}

/// The keys the normal-mode reaction is defined for: those that would not make a counter
/// run past its largest value.
pub open spec fn normal_key_accepted(s: BrowserView, key: Key) -> bool {
    &&& (key == Key::Char('\n') && match (s.current_page, s.selected_link_index) {
        (Some(p), Some(i)) => i < page_links(p).len(),
        _ => false,
    }) ==> s.current_request_id < u64::MAX
    &&& (key == Key::Down || key == Key::Char('j')) ==> s.scroll_offset < usize::MAX
    &&& (key == Key::Char('\t') && has_links(s.current_page)) ==> (
    s.selected_link_index matches Some(i) ==> i < usize::MAX)
}

/// The keys the editing reaction is defined for: submitting a non-blank address needs a
/// request id left.
pub open spec fn editing_key_accepted(s: BrowserView, key: Key) -> bool {
    (key == Key::Char('\n') && trim(s.url_input).len() > 0) ==> s.current_request_id < u64::MAX
}

/// The keys the bookmark-list reaction is defined for: those that would not make a
/// counter run past its largest value or delete a bookmark that is not there.
pub open spec fn bookmarks_key_accepted(s: BrowserView, key: Key) -> bool {
    &&& (key == Key::Char('\n') && s.selected_bookmark_index < s.bookmarks.len())
        ==> s.current_request_id < u64::MAX
    &&& key == Key::Down ==> s.selected_bookmark_index < usize::MAX
    &&& (key == Key::Char('d') && s.bookmarks.len() > 0) ==> s.selected_bookmark_index
        < s.bookmarks.len()
}

/// The keys the reaction is defined for in a state, as its input mode says.
pub open spec fn key_accepted(s: BrowserView, key: Key) -> bool {
    match s.input_mode {
        InputMode::Normal => normal_key_accepted(s, key),
        InputMode::Editing => editing_key_accepted(s, key),
        InputMode::Bookmarks => bookmarks_key_accepted(s, key),
        InputMode::Help => true,
    }
}

/// The reaction to a key in the main loop: `q` quits whatever the mode, any other key
/// goes to `input_step`.
pub open spec fn key_step(s: BrowserView, key: Key) -> (BrowserView, CommandView) {
    if key == Key::Char('q') {
        (s, CommandView::Quit)
    } else {
        input_step(s, key)
    }
}

/// The reaction to the outcome of request `id`: ignored unless it answers the latest
/// request; a page becomes the current one (the one it replaces goes to the back history
/// unless it has the same URL, and the forward history is cleared); an error is shown.
pub open spec fn loaded_step(s: BrowserView, result: Result<Page, String>, id: u64) -> BrowserView {
    if id != s.current_request_id {
        s
    } else {
        match result {
            Ok(page) => BrowserView {
                is_loading: false,
                history_back: match s.current_page {
                    Some(c) => if c.url@ != page.url@ {
                        push_bounded(s.history_back, c)
                    } else {
                        s.history_back
                    },
                    None => s.history_back,
                },
                history_forward: Seq::empty(),
                current_page: Some(page),
                scroll_offset: 0,
                selected_link_index: None,
                ..s
            },
            Err(e) => with_error(s, e@),
        }
    }
}

/// The URLs of the link lines of `content`, in order.
pub fn link_targets(content: &Vec<GeminiLine>) -> (res: Vec<String>)
    ensures
        strings_view(res@) == link_urls(lines_view(content@)),
{
    let mut res: Vec<String> = Vec::new();
    let mut i: usize = 0;
    while i < content.len()
        invariant
            i <= content.len(),
            strings_view(res@) == link_urls(lines_view(content@.take(i as int))),
        decreases content.len() - i,
    {
        let ghost before = res@;
        assert(lines_view(content@.take(i + 1)).drop_last() =~= lines_view(content@.take(i as int)));
        assert(lines_view(content@.take(i + 1)).last() == content@[i as int]@);
        match &content[i] {
            GeminiLine::Link(u, _) => {
                res.push(u.clone());
                assert(strings_view(res@) =~= strings_view(before).push(u@));
            },
            _ => {},
        }
        i = i + 1;
    }
    assert(content@.take(content.len() as int) =~= content@);
    res
}

/// Whether `bookmarks` holds a bookmark with this URL and title.
fn has_bookmark(bookmarks: &Vec<Bookmark>, url: &String, title: &String) -> (res: bool)
    ensures
        res == bookmarks_view(bookmarks@).contains(BookmarkView { url: url@, title: title@ }),
{
    let ghost b = BookmarkView { url: url@, title: title@ };
    let mut i: usize = 0;
    while i < bookmarks.len()
        invariant
            i <= bookmarks.len(),
            b == (BookmarkView { url: url@, title: title@ }),
            forall|j: int| 0 <= j < i ==> bookmarks_view(bookmarks@)[j] != b,
        decreases bookmarks.len() - i,
    {
        if bookmarks[i].url == *url && bookmarks[i].title == *title {
            assert(bookmarks_view(bookmarks@)[i as int] == b);
            return true;
        }
        i = i + 1;
    }
    false
}

impl BrowserState {
    /// Starts a new request: the next request id, and loading.
    pub fn start_request(&mut self) -> (id: u64)
        requires
            old(self).current_request_id < u64::MAX,
        ensures
            final(self)@ == begin_fetch(old(self)@),
            id == old(self).current_request_id + 1,
    {
        self.current_request_id = self.current_request_id + 1;
        self.is_loading = true;
        self.current_request_id
    }
}

/// Opens `address` as the first page: a fetch where it parses as a URL.
pub fn open_start_page(state: &mut BrowserState, address: &str) -> (cmd: Command)
    requires
        old(state).current_request_id < u64::MAX,
    ensures
        (final(state)@, cmd@) == open_address(old(state)@, address@),
{
    match parse_url(address) {
        Some(u) => {
            let id = state.start_request();
            Command::Fetch { url: u, request_id: id }
        },
        None => Command::Nothing,
    }
}

/// The reaction to a key in normal mode.
pub fn handle_normal_mode(state: &mut BrowserState, key: Key) -> (cmd: Command)
    requires
        normal_key_accepted(old(state)@, key),
    ensures
        (final(state)@, cmd@) == normal_step(old(state)@, key),
{
    match key {
        Key::Char('g') => {
            state.input_mode = InputMode::Editing;
            state.url_input = String::new();
            Command::Nothing
        },
        Key::Char('h') => {
            state.input_mode = InputMode::Help;
            Command::Nothing
        },
        Key::Char('l') => {
            state.input_mode = InputMode::Bookmarks;
            Command::Nothing
        },
        Key::Char('\u{2}') => {
            let url = match &state.current_page {
                Some(p) => Some(p.url.clone()),
                None => None,
            };
            match url {
                Some(u) => {
                    let title = u.clone();
                    if has_bookmark(&state.bookmarks, &u, &title) {
                        state.set_error("Already bookmarked");
                        Command::Nothing
                    } else {
                        let ghost before = state.bookmarks@;
                        state.bookmarks.push(Bookmark { url: u, title });
                        assert(bookmarks_view(state.bookmarks@) =~= bookmarks_view(before).push(
                            BookmarkView { url: u@, title: u@ },
                        ));
                        Command::SaveBookmarks
                    }
                },
                None => Command::Nothing,
            }
        },
        Key::Char('b') => {
            match state.history_back.pop_back() {
                Some(p) => {
                    match state.current_page.take() {
                        Some(c) => {
                            state.history_forward.push_front(c);
                        },
                        None => {},
                    }
                    state.current_page = Some(p);
                    state.scroll_offset = 0;
                },
                None => {},
            }
            Command::Nothing
        },
        Key::Char('f') => {
            match state.history_forward.pop_front() {
                Some(p) => {
                    match state.current_page.take() {
                        Some(c) => {
                            state.push_history(c);
                        },
                        None => {},
                    }
                    state.current_page = Some(p);
                    state.scroll_offset = 0;
                },
                None => {},
            }
            Command::Nothing
        },
        Key::Char('\t') | Key::BackTab => {
            let count = match &state.current_page {
                Some(page) => link_targets(&page.content).len(),
                None => 0,
            };
            if count > 0 {
                let is_back = key == Key::BackTab;
                let next = if is_back {
                    match state.selected_link_index {
                        Some(i) => if i == 0 {
                            count - 1
                        } else {
                            i - 1
                        },
                        None => count - 1,
                    }
                } else {
                    match state.selected_link_index {
                        Some(i) => (i + 1) % count,
                        None => 0,
                    }
                };
                state.selected_link_index = Some(next);
            }
            Command::Nothing
        },
        Key::Char('\n') => {
            let target = match (&state.current_page, state.selected_link_index) {
                (Some(p), Some(idx)) => {
                    let links = link_targets(&p.content);
                    if idx < links.len() {
                        Some(links[idx].clone())
                    } else {
                        None
                    }
                },
                _ => None,
            };
            match target {
                Some(u) => {
                    let id = state.start_request();
                    Command::Fetch { url: u, request_id: id }
                },
                None => Command::Nothing,
            }
        },
        Key::Up | Key::Char('k') => {
            state.scroll_offset = if state.scroll_offset > 0 {
                state.scroll_offset - 1
            } else {
                0
            };
            Command::Nothing
        },
        Key::Down | Key::Char('j') => {
            state.scroll_offset = state.scroll_offset + 1;
            Command::Nothing
        },
        _ => Command::Nothing,
    }
}

/// The reaction to a key while the address is typed.
pub fn handle_editing_mode(state: &mut BrowserState, key: Key) -> (cmd: Command)
    requires
        editing_key_accepted(old(state)@, key),
    ensures
        (final(state)@, cmd@) == editing_step(old(state)@, key),
{
    match key {
        Key::Char('\n') => {
            let chars = chars_of(state.url_input.as_str());
            let (a, b) = trim_bounds(&chars, 0, chars.len());
            assert(chars@.subrange(0, chars@.len() as int) =~= state.url_input@);
            let mut cmd = Command::Nothing;
            if a < b {
                let raw = string_from(&chars, a, b);
                let target = if contains_scheme_separator(&chars, a, b) {
                    raw
                } else {
                    concat_str("gemini://", raw.as_str())
                };
                match parse_url(target.as_str()) {
                    Some(u) => {
                        let id = state.start_request();
                        cmd = Command::Fetch { url: u, request_id: id };
                    },
                    None => {
                        state.set_error("Invalid URL");
                    },
                }
            }
            state.input_mode = InputMode::Normal;
            cmd
        },
        Key::Char('\u{1b}') => {
            state.input_mode = InputMode::Normal;
            Command::Nothing
        },
        Key::Backspace | Key::Char('\u{7f}') => {
            state.url_input.pop();
            Command::Nothing
        },
        Key::Char(c) => {
            state.url_input.push(c);
            Command::Nothing
        },
        _ => Command::Nothing,
    }
}

/// The reaction to a key on the bookmark list.
pub fn handle_bookmarks_mode(state: &mut BrowserState, key: Key) -> (cmd: Command)
    requires
        bookmarks_key_accepted(old(state)@, key),
    ensures
        (final(state)@, cmd@) == bookmarks_step(old(state)@, key),
{
    match key {
        Key::Up => {
            state.selected_bookmark_index = if state.selected_bookmark_index > 0 {
                state.selected_bookmark_index - 1
            } else {
                0
            };
            Command::Nothing
        },
        Key::Down => {
            if state.selected_bookmark_index + 1 < state.bookmarks.len() {
                state.selected_bookmark_index = state.selected_bookmark_index + 1;
            }
            Command::Nothing
        },
        Key::Char('\n') => {
            let mut cmd = Command::Nothing;
            let idx = state.selected_bookmark_index;
            if idx < state.bookmarks.len() {
                match parse_url(state.bookmarks[idx].url.as_str()) {
                    Some(u) => {
                        let id = state.start_request();
                        cmd = Command::Fetch { url: u, request_id: id };
                    },
                    None => {},
                }
            }
            state.input_mode = InputMode::Normal;
            cmd
        },
        Key::Char('d') => {
            if state.bookmarks.len() > 0 {
                let ghost before = state.bookmarks@;
                state.bookmarks.remove(state.selected_bookmark_index);
                assert(bookmarks_view(state.bookmarks@) =~= bookmarks_view(before).remove(
                    old(state).selected_bookmark_index as int,
                ));
                let len = state.bookmarks.len();
                let last = if len > 0 {
                    len - 1
                } else {
                    0
                };
                if state.selected_bookmark_index > last {
                    state.selected_bookmark_index = last;
                }
            }
            Command::Nothing
        },
        _ => {
            state.input_mode = InputMode::Normal;
            Command::Nothing
        },
    }
}

/// The reaction to a key: the error message goes away, then the key acts as the input
/// mode says.
pub fn handle_input(state: &mut BrowserState, key: Key) -> (cmd: Command)
    requires
        key_accepted(old(state)@, key),
    ensures
        (final(state)@, cmd@) == input_step(old(state)@, key),
{
    if state.error_message.is_some() {
        state.error_message = None;
    }
    match state.input_mode {
        InputMode::Normal => handle_normal_mode(state, key),
        InputMode::Editing => handle_editing_mode(state, key),
        InputMode::Bookmarks => handle_bookmarks_mode(state, key),
        InputMode::Help => {
            state.input_mode = InputMode::Normal;
            Command::Nothing
        },
    }
}

/// Whether `on_key` is defined for `key` in this state: `q` always is; another key is
/// unless its reaction would make a counter run past its largest value or delete a
/// bookmark that is not there.
pub fn accepts_key(state: &BrowserState, key: Key) -> (res: bool)
    ensures
        res == (key != Key::Char('q') ==> key_accepted(state@, key)),
{
    if key == Key::Char('q') {
        return true;
    }
    let id_left = state.current_request_id < u64::MAX;
    match state.input_mode {
        InputMode::Normal => {
            let (link_count, selected) = match &state.current_page {
                Some(p) => (link_targets(&p.content).len(), state.selected_link_index),
                None => (0, None),
            };
            let follows = key == Key::Char('\n') && match selected {
                Some(i) => i < link_count,
                None => false,
            };
            let scrolls = key == Key::Down || key == Key::Char('j');
            let cycles = key == Key::Char('\t') && link_count > 0;
            let cycle_ok = match state.selected_link_index {
                Some(i) => i < usize::MAX,
                None => true,
            };
            (!follows || id_left) && (!scrolls || state.scroll_offset < usize::MAX) && (!cycles
                || cycle_ok)
        },
        InputMode::Editing => {
            if key == Key::Char('\n') {
                let chars = chars_of(state.url_input.as_str());
                let (a, b) = trim_bounds(&chars, 0, chars.len());
                assert(chars@.subrange(0, chars@.len() as int) =~= state.url_input@);
                a == b || id_left
            } else {
                true
            }
        },
        InputMode::Bookmarks => {
            let n = state.bookmarks.len();
            let k = state.selected_bookmark_index;
            (!(key == Key::Char('\n') && k < n) || id_left) && (!(key == Key::Down) || k
                < usize::MAX) && (!(key == Key::Char('d') && n > 0) || k < n)
        },
        InputMode::Help => true,
    }
}

/// The reaction to a key in the main loop: `q` quits whatever the mode.
pub fn on_key(state: &mut BrowserState, key: Key) -> (cmd: Command)
    requires
        key != Key::Char('q') ==> key_accepted(old(state)@, key),
    ensures
        (final(state)@, cmd@) == key_step(old(state)@, key),
{
    if key == Key::Char('q') {
        Command::Quit
    } else {
        handle_input(state, key)
    }
}

impl BrowserState {
    /// The reaction to the outcome of request `id`.
    pub fn on_loaded(&mut self, result: Result<Page, String>, id: u64)
        ensures
            final(self)@ == loaded_step(old(self)@, result, id),
    {
        if id == self.current_request_id {
            self.is_loading = false;
            match result {
                Ok(page) => {
                    match self.current_page.take() {
                        Some(curr) => {
                            if !(curr.url == page.url) {
                                self.push_history(curr);
                            }
                        },
                        None => {},
                    }
                    self.history_forward.clear();
                    self.current_page = Some(page);
                    self.scroll_offset = 0;
                    self.selected_link_index = None;
                },
                Err(e) => {
                    self.set_error(e.as_str());
                },
            }
        }
    }
}

} // verus!
