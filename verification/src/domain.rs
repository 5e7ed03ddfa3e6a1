//! The browser's data: lines of gemtext, pages, bookmarks and the state of the browser.
use vstd::prelude::*;
use std::collections::VecDeque;

verus! {

/// How many pages the back history keeps.
pub const HISTORY_LIMIT: usize = 20;

/// What the keyboard currently drives.
#[derive(Clone, Copy, PartialEq, Eq, Debug, Structural)]
pub enum InputMode {
    Normal,
    Editing,
    Help,
    Bookmarks,
}

/// One line of a gemtext page. URLs are held as the text of their serialization.
#[derive(Clone, Debug, PartialEq, Eq)]
pub enum GeminiLine {
    Text(String),
    Link(String, String),
    Header(u8, String),
    ListItem(String),
    Quote(String),
    Preformatted(String),
}

/// The mathematical model of a `GeminiLine`.
pub enum LineSpec {
    Text(Seq<char>),
    Link(Seq<char>, Seq<char>),
    Header(u8, Seq<char>),
    ListItem(Seq<char>),
    Quote(Seq<char>),
    Preformatted(Seq<char>),
}

impl View for GeminiLine {
    type V = LineSpec;

    open spec fn view(&self) -> LineSpec {
        match self {
            GeminiLine::Text(t) => LineSpec::Text(t@),
            GeminiLine::Link(u, l) => LineSpec::Link(u@, l@),
            GeminiLine::Header(n, t) => LineSpec::Header(*n, t@),
            GeminiLine::ListItem(t) => LineSpec::ListItem(t@),
            GeminiLine::Quote(t) => LineSpec::Quote(t@),
            GeminiLine::Preformatted(t) => LineSpec::Preformatted(t@),
        }
    }
}

/// The models of a sequence of lines.
pub open spec fn lines_view(lines: Seq<GeminiLine>) -> Seq<LineSpec> {
    lines.map_values(|l: GeminiLine| l@)
}

/// A fetched page: its URL and its parsed content.
#[derive(Clone, Debug)]
pub struct Page {
    pub url: String,
    pub content: Vec<GeminiLine>,
}

/// A saved bookmark.
#[derive(Clone, Debug, PartialEq, Eq)]
pub struct Bookmark {
    pub url: String,
    pub title: String,
}

/// The mathematical model of a `Bookmark`.
pub struct BookmarkView {
    pub url: Seq<char>,
    pub title: Seq<char>,
}

impl View for Bookmark {
    type V = BookmarkView;

    open spec fn view(&self) -> BookmarkView {
        BookmarkView { url: self.url@, title: self.title@ }
    }
}

/// The models of a sequence of bookmarks.
pub open spec fn bookmarks_view(b: Seq<Bookmark>) -> Seq<BookmarkView> {
    b.map_values(|x: Bookmark| x@)
}

/// The model of an optional string.
pub open spec fn opt_str_view(o: Option<String>) -> Option<Seq<char>> {
    match o {
        Some(s) => Some(s@),
        None => None,
    }
}

/// Everything the browser keeps between two events.
pub struct BrowserState {
    pub current_request_id: u64,
    pub history_back: VecDeque<Page>,
    pub history_forward: VecDeque<Page>,
    pub current_page: Option<Page>,
    pub scroll_offset: usize,
    pub selected_link_index: Option<usize>,
    pub selected_bookmark_index: usize,
    pub error_message: Option<String>,
    pub url_input: String,
    pub input_mode: InputMode,
    pub is_loading: bool,
    pub bookmarks: Vec<Bookmark>,
}

/// The mathematical model of a `BrowserState`.
#[verifier::ext_equal]
pub struct BrowserView {
    pub current_request_id: u64,
    pub history_back: Seq<Page>,
    pub history_forward: Seq<Page>,
    pub current_page: Option<Page>,
    pub scroll_offset: usize,
    pub selected_link_index: Option<usize>,
    pub selected_bookmark_index: usize,
    pub error_message: Option<Seq<char>>,
    pub url_input: Seq<char>,
    pub input_mode: InputMode,
    pub is_loading: bool,
    pub bookmarks: Seq<BookmarkView>,
}

impl View for BrowserState {
    type V = BrowserView;

    open spec fn view(&self) -> BrowserView {
        BrowserView {
            current_request_id: self.current_request_id,
            history_back: self.history_back@,
            history_forward: self.history_forward@,
            current_page: self.current_page,
            scroll_offset: self.scroll_offset,
            selected_link_index: self.selected_link_index,
            selected_bookmark_index: self.selected_bookmark_index,
            error_message: opt_str_view(self.error_message),
            url_input: self.url_input@,
            input_mode: self.input_mode,
            is_loading: self.is_loading,
            bookmarks: bookmarks_view(self.bookmarks@),
        }
    }
}

/// The back history with `page` added at its end, its oldest page dropped where it was
/// already full.
pub open spec fn push_bounded(history: Seq<Page>, page: Page) -> Seq<Page> {
    if history.len() >= HISTORY_LIMIT {
        history.drop_first().push(page)
    } else {
        history.push(page)
    }
}

/// The state with an error message shown; loading stops.
pub open spec fn with_error(s: BrowserView, msg: Seq<char>) -> BrowserView {
    BrowserView { error_message: Some(msg), is_loading: false, ..s }
}

/// A well-formed state: the back history holds at most `HISTORY_LIMIT` pages.
pub open spec fn history_bounded(s: BrowserView) -> bool {
    s.history_back.len() <= HISTORY_LIMIT
}

impl BrowserState {
    /// A fresh state with the given bookmarks: no page, no history, normal mode.
    pub fn new(bookmarks: Vec<Bookmark>) -> (res: Self)
        ensures
            res@ == (BrowserView {
                current_request_id: 0,
                history_back: Seq::empty(),
                history_forward: Seq::empty(),
                current_page: None,
                scroll_offset: 0,
                selected_link_index: None,
                selected_bookmark_index: 0,
                error_message: None,
                url_input: Seq::empty(),
                input_mode: InputMode::Normal,
                is_loading: false,
                bookmarks: bookmarks_view(bookmarks@),
            }),
    {
        BrowserState {
            current_request_id: 0,
            history_back: VecDeque::with_capacity(HISTORY_LIMIT),
            history_forward: VecDeque::with_capacity(HISTORY_LIMIT),
            current_page: None,
            scroll_offset: 0,
            selected_link_index: None,
            selected_bookmark_index: 0,
            error_message: None,
            url_input: String::new(),
            input_mode: InputMode::Normal,
            is_loading: false,
            bookmarks,
        }
    }

    /// Adds a page to the back history, dropping the oldest one where the history is full.
    pub fn push_history(&mut self, page: Page)
        ensures
            final(self)@ == (BrowserView {
                history_back: push_bounded(old(self)@.history_back, page),
                ..old(self)@
            }),
    {
        if self.history_back.len() >= HISTORY_LIMIT {
            self.history_back.pop_front();
        }
        self.history_back.push_back(page);
        assert(self.history_back@ =~= push_bounded(old(self)@.history_back, page));
    }

    /// Shows an error message; loading stops.
    pub fn set_error(&mut self, msg: &str)
        ensures
            final(self)@ == with_error(old(self)@, msg@),
    {
        self.error_message = Some(String::from_str(msg));
        self.is_loading = false;
    }

    /// Records the outcome of writing the bookmarks out: where they were stored, the
    /// message says so; otherwise nothing changes.
    pub fn save_bookmarks(&mut self, stored: bool)
        ensures
            stored ==> final(self)@ == (BrowserView {
                error_message: Some("Bookmarks saved!"@),
                ..old(self)@
            }),
            !stored ==> final(self)@ == old(self)@,
    {
        if stored {
            self.error_message = Some(String::from_str("Bookmarks saved!"));
        }
    }
}

} // verus!
