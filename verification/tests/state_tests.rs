use gemini_browser::domain::{Bookmark, BrowserState, GeminiLine, InputMode, Page, HISTORY_LIMIT};
use gemini_browser::input::{
    accepts_key, handle_editing_mode, handle_input, handle_normal_mode, on_key, open_start_page,
    Command, Key,
};

fn page(url: &str) -> Page {
    Page { url: url.to_string(), content: vec![] }
}

fn page_with_links(url: &str, n: usize) -> Page {
    let mut content = vec![GeminiLine::Text("intro".to_string())];
    for i in 0..n {
        content.push(GeminiLine::Link(format!("gemini://host/{}", i), format!("L{}", i)));
    }
    Page { url: url.to_string(), content }
}

#[test]
fn test_request_id_cancellation_logic() {
    let mut state = BrowserState::new(vec![]);

    state.current_request_id += 1;
    let id1 = state.current_request_id;

    state.current_request_id += 1;
    let id2 = state.current_request_id;

    state.on_loaded(Ok(page("gemini://old")), id1);
    assert!(state.current_page.is_none());

    state.on_loaded(Ok(page("gemini://new")), id2);
    assert_eq!(state.current_page.unwrap().url.as_str(), "gemini://new");
}

#[test]
fn test_handle_input_increments_id() {
    let mut state = BrowserState::new(vec![]);
    state.input_mode = InputMode::Editing;
    state.url_input = "test.com".into();

    let initial_id = state.current_request_id;
    let cmd = handle_input(&mut state, Key::Char('\n'));

    assert!(state.current_request_id > initial_id);
    assert!(state.is_loading);
    match cmd {
        Command::Fetch { url, request_id } => {
            assert_eq!(url, "gemini://test.com");
            assert_eq!(request_id, state.current_request_id);
        }
        _ => panic!("expected a fetch"),
    }
}

#[test]
fn test_ctrl_b_adds_bookmark_and_sets_message() {
    let mut state = BrowserState::new(vec![]);
    state.current_page = Some(page("gemini://new-page.com"));

    if let Some(p) = &state.current_page {
        let url = p.url.clone();
        state.bookmarks.push(Bookmark { url: url.clone(), title: url });
        state.save_bookmarks(true);
    }

    assert_eq!(state.bookmarks.len(), 1);
    assert_eq!(state.bookmarks[0].url, "gemini://new-page.com");
    assert!(state.error_message.as_ref().unwrap().contains("saved"));
}

#[test]
fn test_bookmark_shortcut_updates_state_message() {
    let mut state = BrowserState::new(vec![]);
    state.current_page = Some(page("gemini://test.pl"));

    let cmd = handle_normal_mode(&mut state, Key::Char('\u{2}'));
    assert!(matches!(cmd, Command::SaveBookmarks));
    state.save_bookmarks(true);

    assert!(state.error_message.is_some());
    assert_eq!(state.error_message.unwrap(), "Bookmarks saved!");
    assert_eq!(state.bookmarks.len(), 1);
}

#[test]
fn bookmarking_twice_is_refused() {
    let mut state = BrowserState::new(vec![]);
    state.current_page = Some(page("gemini://twice"));
    assert!(matches!(handle_input(&mut state, Key::Char('\u{2}')), Command::SaveBookmarks));
    assert!(matches!(handle_input(&mut state, Key::Char('\u{2}')), Command::Nothing));
    assert_eq!(state.bookmarks.len(), 1);
    assert_eq!(state.error_message.as_deref(), Some("Already bookmarked"));
}

#[test]
fn unsaved_bookmarks_leave_no_message() {
    let mut state = BrowserState::new(vec![]);
    state.save_bookmarks(false);
    assert!(state.error_message.is_none());
}

#[test]
fn back_then_forward_restores_pages() {
    let mut state = BrowserState::new(vec![]);
    state.push_history(page("gemini://a"));
    state.push_history(page("gemini://b"));
    state.current_page = Some(page("gemini://c"));

    handle_input(&mut state, Key::Char('b'));
    assert_eq!(state.current_page.as_ref().unwrap().url, "gemini://b");
    assert_eq!(state.history_back.len(), 1);
    assert_eq!(state.history_forward.len(), 1);

    handle_input(&mut state, Key::Char('f'));
    assert_eq!(state.current_page.as_ref().unwrap().url, "gemini://c");
    assert_eq!(state.history_back.len(), 2);
    assert_eq!(state.history_back[1].url, "gemini://b");
    assert!(state.history_forward.is_empty());
}

#[test]
fn history_keeps_only_the_latest_pages() {
    let mut state = BrowserState::new(vec![]);
    for i in 0..(HISTORY_LIMIT + 5) {
        state.push_history(page(&format!("gemini://p{}", i)));
    }
    assert_eq!(state.history_back.len(), HISTORY_LIMIT);
    assert_eq!(state.history_back[0].url, "gemini://p5");
    assert_eq!(state.history_back[HISTORY_LIMIT - 1].url, format!("gemini://p{}", HISTORY_LIMIT + 4));
}

#[test]
fn tab_and_back_tab_cycle_through_links() {
    let mut state = BrowserState::new(vec![]);
    state.current_page = Some(page_with_links("gemini://host/", 3));

    handle_input(&mut state, Key::Char('\t'));
    assert_eq!(state.selected_link_index, Some(0));
    handle_input(&mut state, Key::Char('\t'));
    handle_input(&mut state, Key::Char('\t'));
    handle_input(&mut state, Key::Char('\t'));
    assert_eq!(state.selected_link_index, Some(0));
    handle_input(&mut state, Key::BackTab);
    assert_eq!(state.selected_link_index, Some(2));
    handle_input(&mut state, Key::Char('\t'));
    assert_eq!(state.selected_link_index, Some(0));
}

#[test]
fn back_tab_without_selection_picks_last_link() {
    let mut state = BrowserState::new(vec![]);
    state.current_page = Some(page_with_links("gemini://host/", 4));
    handle_input(&mut state, Key::BackTab);
    assert_eq!(state.selected_link_index, Some(3));
}

#[test]
fn enter_follows_selected_link() {
    let mut state = BrowserState::new(vec![]);
    state.current_page = Some(page_with_links("gemini://host/", 3));
    state.selected_link_index = Some(1);
    match handle_input(&mut state, Key::Char('\n')) {
        Command::Fetch { url, request_id } => {
            assert_eq!(url, "gemini://host/1");
            assert_eq!(request_id, 1);
        }
        _ => panic!("expected a fetch"),
    }
    assert!(state.is_loading);
}

#[test]
fn stale_response_is_ignored() {
    let mut state = BrowserState::new(vec![]);
    state.current_request_id = 7;
    state.is_loading = true;
    state.on_loaded(Err("boom".to_string()), 6);
    assert!(state.is_loading);
    assert!(state.error_message.is_none());
    state.on_loaded(Err("boom".to_string()), 7);
    assert!(!state.is_loading);
    assert_eq!(state.error_message.as_deref(), Some("boom"));
}

#[test]
fn loaded_page_moves_previous_to_history() {
    let mut state = BrowserState::new(vec![]);
    state.current_request_id = 1;
    state.current_page = Some(page("gemini://first"));
    state.history_forward.push_back(page("gemini://later"));
    state.selected_link_index = Some(2);
    state.scroll_offset = 9;
    state.on_loaded(Ok(page("gemini://second")), 1);
    assert_eq!(state.history_back.len(), 1);
    assert_eq!(state.history_back[0].url, "gemini://first");
    assert!(state.history_forward.is_empty());
    assert_eq!(state.scroll_offset, 0);
    assert_eq!(state.selected_link_index, None);

    state.on_loaded(Ok(page("gemini://second")), 1);
    assert_eq!(state.history_back.len(), 1);
}

#[test]
fn editing_keys_change_the_address() {
    let mut state = BrowserState::new(vec![]);
    handle_input(&mut state, Key::Char('g'));
    assert_eq!(state.input_mode, InputMode::Editing);
    handle_input(&mut state, Key::Char('a'));
    handle_input(&mut state, Key::Char('b'));
    handle_input(&mut state, Key::Backspace);
    assert_eq!(state.url_input, "a");
    handle_input(&mut state, Key::Char('\u{1b}'));
    assert_eq!(state.input_mode, InputMode::Normal);
}

#[test]
fn typed_address_with_scheme_is_normalized() {
    let mut state = BrowserState::new(vec![]);
    state.input_mode = InputMode::Editing;
    state.url_input = "  gemini://host/a/../b  ".into();
    match handle_input(&mut state, Key::Char('\n')) {
        Command::Fetch { url, .. } => assert_eq!(url, "gemini://host/b"),
        _ => panic!("expected a fetch"),
    }
    assert_eq!(state.input_mode, InputMode::Normal);
}

#[test]
fn invalid_typed_address_shows_error() {
    let mut state = BrowserState::new(vec![]);
    state.input_mode = InputMode::Editing;
    state.url_input = "exa mple".into();
    assert!(matches!(handle_input(&mut state, Key::Char('\n')), Command::Nothing));
    assert_eq!(state.error_message.as_deref(), Some("Invalid URL"));
    assert_eq!(state.current_request_id, 0);
}

#[test]
fn blank_address_does_nothing() {
    let mut state = BrowserState::new(vec![]);
    state.input_mode = InputMode::Editing;
    state.url_input = "   ".into();
    assert!(matches!(handle_input(&mut state, Key::Char('\n')), Command::Nothing));
    assert_eq!(state.input_mode, InputMode::Normal);
    assert!(state.error_message.is_none());
}

#[test]
fn bookmark_list_navigation_and_delete() {
    let bookmarks = vec![
        Bookmark { url: "gemini://one".into(), title: "one".into() },
        Bookmark { url: "gemini://two".into(), title: "two".into() },
    ];
    let mut state = BrowserState::new(bookmarks);
    handle_input(&mut state, Key::Char('l'));
    assert_eq!(state.input_mode, InputMode::Bookmarks);
    handle_input(&mut state, Key::Down);
    handle_input(&mut state, Key::Down);
    assert_eq!(state.selected_bookmark_index, 1);
    handle_input(&mut state, Key::Char('d'));
    assert_eq!(state.bookmarks.len(), 1);
    assert_eq!(state.selected_bookmark_index, 0);
    match handle_input(&mut state, Key::Char('\n')) {
        Command::Fetch { url, .. } => assert_eq!(url, "gemini://one"),
        _ => panic!("expected a fetch"),
    }
    assert_eq!(state.input_mode, InputMode::Normal);
}

#[test]
fn quit_key_quits_in_every_mode() {
    let mut state = BrowserState::new(vec![]);
    state.input_mode = InputMode::Editing;
    assert!(matches!(on_key(&mut state, Key::Char('q')), Command::Quit));
    assert!(state.url_input.is_empty());
}

#[test]
fn any_key_clears_error_and_help() {
    let mut state = BrowserState::new(vec![]);
    state.set_error("oops");
    state.input_mode = InputMode::Help;
    handle_input(&mut state, Key::Other);
    assert!(state.error_message.is_none());
    assert_eq!(state.input_mode, InputMode::Normal);
}

#[test]
fn scrolling_stops_at_zero() {
    let mut state = BrowserState::new(vec![]);
    handle_input(&mut state, Key::Char('j'));
    handle_input(&mut state, Key::Down);
    assert_eq!(state.scroll_offset, 2);
    handle_input(&mut state, Key::Up);
    handle_input(&mut state, Key::Char('k'));
    handle_input(&mut state, Key::Char('k'));
    assert_eq!(state.scroll_offset, 0);
}

#[test]
fn start_page_is_fetched_as_first_request() {
    let mut state = BrowserState::new(vec![]);
    match open_start_page(&mut state, "gemini://geminiprotocol.net/") {
        Command::Fetch { url, request_id } => {
            assert_eq!(url, "gemini://geminiprotocol.net/");
            assert_eq!(request_id, 1);
        }
        _ => panic!("expected a fetch"),
    }
    assert_eq!(state.current_request_id, 1);
    assert!(state.is_loading);
}

#[test]
fn start_page_scheme_is_lowercased_by_the_parser() {
    let mut state = BrowserState::new(vec![]);
    match open_start_page(&mut state, "GEMINI://Example.ORG") {
        Command::Fetch { url, .. } => assert_eq!(url, "gemini://Example.ORG"),
        _ => panic!("expected a fetch"),
    }
}

#[test]
fn unparsable_start_page_starts_nothing() {
    let mut state = BrowserState::new(vec![]);
    assert!(matches!(open_start_page(&mut state, "not a url"), Command::Nothing));
    assert_eq!(state.current_request_id, 0);
    assert!(!state.is_loading);
}

#[test]
fn typing_then_erasing_restores_the_address() {
    let mut state = BrowserState::new(vec![]);
    state.input_mode = InputMode::Editing;
    state.url_input = "gemini://a".to_string();
    assert!(matches!(handle_editing_mode(&mut state, Key::Char('é')), Command::Nothing));
    assert_eq!(state.url_input, "gemini://aé");
    assert!(matches!(handle_editing_mode(&mut state, Key::Backspace), Command::Nothing));
    assert_eq!(state.url_input, "gemini://a");
    assert_eq!(state.input_mode, InputMode::Editing);
}

#[test]
fn bookmarking_without_page_does_nothing() {
    let mut state = BrowserState::new(vec![Bookmark { url: "u".to_string(), title: "t".to_string() }]);
    assert!(matches!(handle_normal_mode(&mut state, Key::Char('\u{2}')), Command::Nothing));
    assert_eq!(state.bookmarks.len(), 1);
    assert!(state.error_message.is_none());
}

#[test]
fn already_bookmarked_stops_loading() {
    let mut state = BrowserState::new(vec![Bookmark {
        url: "gemini://x".to_string(),
        title: "gemini://x".to_string(),
    }]);
    state.current_page = Some(page("gemini://x"));
    state.is_loading = true;
    assert!(matches!(handle_normal_mode(&mut state, Key::Char('\u{2}')), Command::Nothing));
    assert_eq!(state.bookmarks.len(), 1);
    assert!(!state.is_loading);
    assert_eq!(state.error_message.as_deref(), Some("Already bookmarked"));
}

#[test]
fn same_url_with_other_title_is_a_new_bookmark() {
    let mut state = BrowserState::new(vec![Bookmark {
        url: "gemini://x".to_string(),
        title: "My page".to_string(),
    }]);
    state.current_page = Some(page("gemini://x"));
    assert!(matches!(handle_normal_mode(&mut state, Key::Char('\u{2}')), Command::SaveBookmarks));
    assert_eq!(state.bookmarks.len(), 2);
    assert_eq!(state.bookmarks[1].title, "gemini://x");
}

#[test]
fn back_then_forward_resets_only_the_scroll() {
    let mut state = BrowserState::new(vec![]);
    state.push_history(page("gemini://a"));
    state.current_page = Some(page("gemini://b"));
    state.scroll_offset = 7;
    state.selected_link_index = Some(3);
    handle_normal_mode(&mut state, Key::Char('b'));
    handle_normal_mode(&mut state, Key::Char('f'));
    assert_eq!(state.current_page.as_ref().unwrap().url, "gemini://b");
    assert_eq!(state.history_back.len(), 1);
    assert_eq!(state.history_back[0].url, "gemini://a");
    assert!(state.history_forward.is_empty());
    assert_eq!(state.scroll_offset, 0);
    assert_eq!(state.selected_link_index, Some(3));
}

#[test]
fn help_mode_key_only_returns_to_normal() {
    let mut state = BrowserState::new(vec![]);
    state.input_mode = InputMode::Help;
    state.error_message = Some("old".to_string());
    state.url_input = "kept".to_string();
    assert!(matches!(handle_input(&mut state, Key::Char('\u{2}')), Command::Nothing));
    assert_eq!(state.input_mode, InputMode::Normal);
    assert!(state.error_message.is_none());
    assert_eq!(state.url_input, "kept");
    assert!(state.bookmarks.is_empty());
}

#[test]
fn keys_that_would_overflow_are_not_accepted() {
    let mut state = BrowserState::new(vec![]);
    assert!(accepts_key(&state, Key::Char('j')));
    state.scroll_offset = usize::MAX;
    assert!(!accepts_key(&state, Key::Char('j')));
    assert!(!accepts_key(&state, Key::Down));
    assert!(accepts_key(&state, Key::Char('k')));
    assert!(accepts_key(&state, Key::Char('q')));

    state.input_mode = InputMode::Editing;
    state.current_request_id = u64::MAX;
    state.url_input = "  ".to_string();
    assert!(accepts_key(&state, Key::Char('\n')));
    state.url_input = "host".to_string();
    assert!(!accepts_key(&state, Key::Char('\n')));
    assert!(accepts_key(&state, Key::Char('x')));
}

#[test]
fn deleting_a_missing_bookmark_is_not_accepted() {
    let mut state = BrowserState::new(vec![Bookmark { url: "u".to_string(), title: "t".to_string() }]);
    state.input_mode = InputMode::Bookmarks;
    assert!(accepts_key(&state, Key::Char('d')));
    state.selected_bookmark_index = 1;
    assert!(!accepts_key(&state, Key::Char('d')));
    assert!(accepts_key(&state, Key::Up));
}
