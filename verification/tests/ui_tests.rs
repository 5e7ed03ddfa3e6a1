use gemini_browser::domain::{BrowserState, GeminiLine, Page};
use gemini_browser::input::link_targets;
use gemini_browser::ui::{
    bookmark_rows, content_rows, footer_text, header_text, help_rows, lines_to_draw, truncate_to_width,
    wrap_text, LineStyle,
};
use gemini_browser::domain::Bookmark;

#[test]
fn test_wrap_text_simple() {
    let text = "ala ma kota";
    let wrapped = wrap_text(text, 6);
    assert_eq!(wrapped.len(), 2);
    assert_eq!(wrapped[0], "ala ma");
    assert_eq!(wrapped[1], "kota");
}

#[test]
fn test_wrap_text_exact_width() {
    let text = "123 456";
    let wrapped = wrap_text(text, 3);
    assert_eq!(wrapped.len(), 2);
    assert_eq!(wrapped[0], "123");
    assert_eq!(wrapped[1], "456");
}

#[test]
fn test_wrap_text_long_word() {
    let text = "superkalifradżilistikekspialidocjus";
    let wrapped = wrap_text(text, 10);
    assert_eq!(wrapped.len(), 1);
    assert_eq!(wrapped[0], "superkalifradżilistikekspialidocjus");
}

#[test]
fn test_wrap_text_empty() {
    let text = "";
    let wrapped = wrap_text(text, 10);
    assert_eq!(wrapped.len(), 1);
    assert_eq!(wrapped[0], "");
}

#[test]
fn test_truncate_utf8_width() {
    let text = "zażółć gęślą jaźń";
    let truncated = truncate_to_width(text, 6);
    assert_eq!(truncated, "zażółć");
}

#[test]
fn test_wrap_text_multiple_spaces() {
    let text = "word    word";
    let wrapped = wrap_text(text, 5);
    assert_eq!(wrapped.len(), 2);
    assert_eq!(wrapped[0], "word");
    assert_eq!(wrapped[1], "word");
}

#[test]
fn test_header_formatting_logic() {
    let lines = vec![
        GeminiLine::Header(1, "H1".into()),
        GeminiLine::Header(2, "H2".into()),
        GeminiLine::Header(3, "H3".into()),
    ];

    let results: Vec<String> = lines.iter().map(|line| lines_to_draw(line, 80)[0].clone()).collect();

    assert_eq!(results[0], "# H1");
    assert_eq!(results[1], "## H2");
    assert_eq!(results[2], "### H3");
}

#[test]
fn test_link_selection_isolation() {
    let content = vec![
        GeminiLine::Text("Text 1".into()),
        GeminiLine::Link("gemini://link1".into(), "L1".into()),
        GeminiLine::Text("Text 2".into()),
        GeminiLine::Link("gemini://link2".into(), "L2".into()),
    ];
    let page = Page { url: "gemini://root".into(), content };

    let links = link_targets(&page.content);

    assert_eq!(links.len(), 2);
    assert!(links[0].contains("gemini://link1"));
    assert!(links[1].contains("gemini://link2"));
}

#[test]
fn test_scroll_logic_simulation() {
    let mut content = Vec::new();
    for i in 0..20 {
        content.push(GeminiLine::Preformatted(format!("Line {}", i)));
    }
    let mut state = BrowserState::new(vec![]);
    state.current_page = Some(Page { url: "gemini://root".into(), content });
    state.scroll_offset = 15;

    let rows = content_rows(&state, 10, 80);
    let rendered = rows.len();

    assert_eq!(rendered, 5);
}

#[test]
fn test_preformatted_text_no_wrap() {
    let long_pre = "This is a very long preformatted line that should not be wrapped by wrap_text logic";
    let width = 10;

    let wrapped = wrap_text(long_pre, width);
    assert!(wrapped.len() > 1);

    let pre_line = GeminiLine::Preformatted(long_pre.into());
    let rendered = lines_to_draw(&pre_line, width);
    assert_eq!(rendered, vec![long_pre.to_string()]);
}

#[test]
fn test_quote_formatting() {
    let quote = "To be or not to be";
    let width = 10;
    let rendered = lines_to_draw(&GeminiLine::Quote(quote.into()), width);

    let first_line = &rendered[0];
    assert!(first_line.starts_with("> "));
    assert!(first_line.len() <= width);
}

#[test]
fn wrap_with_zero_width_gives_nothing() {
    assert!(wrap_text("anything", 0).is_empty());
}

#[test]
fn wrap_keeps_paragraph_breaks() {
    assert_eq!(wrap_text("a b\nc", 80), vec!["a b".to_string(), "c".to_string()]);
    assert_eq!(wrap_text("\n\n", 80), vec!["".to_string()]);
}

#[test]
fn wrap_counts_display_width() {
    assert_eq!(wrap_text("日本 語", 5), vec!["日本".to_string(), "語".to_string()]);
    assert_eq!(wrap_text("日本 語", 7), vec!["日本 語".to_string()]);
}

#[test]
fn wrap_keeps_every_word() {
    let text = "the quick  brown\tfox jumps\nover the lazy dog";
    let words: Vec<String> = text.split_whitespace().map(|w| w.to_string()).collect();
    for width in 1..20 {
        let lines = wrap_text(text, width);
        let again: Vec<String> =
            lines.iter().flat_map(|l| l.split_whitespace().map(|w| w.to_string())).collect();
        assert_eq!(again, words);
    }
}

#[test]
fn truncate_counts_wide_characters() {
    assert_eq!(truncate_to_width("日本語", 5), "日本");
    assert_eq!(truncate_to_width("abc", 0), "");
    assert_eq!(truncate_to_width("abc", 10), "abc");
}

#[test]
fn truncate_gives_a_prefix() {
    let s = "hello wide 世界 world";
    for w in 0..30 {
        let t = truncate_to_width(s, w);
        assert!(s.starts_with(t.as_str()));
    }
}

#[test]
fn rendering_of_each_kind_of_line() {
    assert_eq!(lines_to_draw(&GeminiLine::Link("gemini://x".into(), "go".into()), 80), vec!["=> go".to_string()]);
    assert_eq!(
        lines_to_draw(&GeminiLine::ListItem("one two three".into()), 9),
        vec!["* one two".to_string(), "* three".to_string()]
    );
    assert_eq!(lines_to_draw(&GeminiLine::Text("".into()), 0), Vec::<String>::new());
    assert_eq!(lines_to_draw(&GeminiLine::Header(0, "x".into()), 80), vec![" x".to_string()]);
}

#[test]
fn screen_rows_mark_the_selected_link() {
    let content = vec![
        GeminiLine::Header(1, "Title".into()),
        GeminiLine::Link("gemini://a".into(), "A".into()),
        GeminiLine::Link("gemini://b".into(), "B".into()),
        GeminiLine::Preformatted("pre".into()),
    ];
    let mut state = BrowserState::new(vec![]);
    state.current_page = Some(Page { url: "gemini://root".into(), content });
    state.selected_link_index = Some(1);
    let rows = content_rows(&state, 24, 80);
    assert_eq!(rows.len(), 4);
    assert_eq!(rows[0].row, 1);
    assert_eq!(rows[0].style, LineStyle::TopHeader);
    assert!(!rows[1].selected);
    assert!(rows[2].selected);
    assert_eq!(rows[2].text, "=> B");
    assert_eq!(rows[3].style, LineStyle::Preformatted);
    assert_eq!(rows[3].row, 4);
}

#[test]
fn no_page_no_rows() {
    let state = BrowserState::new(vec![]);
    assert!(content_rows(&state, 24, 80).is_empty());
}

#[test]
fn header_and_footer_texts() {
    let mut state = BrowserState::new(vec![]);
    assert_eq!(header_text(&state, 80), " [READY] URL: EMPTY");
    state.is_loading = true;
    state.current_page = Some(Page {
        url: "gemini://x".into(),
        content: vec![GeminiLine::Link("gemini://x/l".into(), "l".into())],
    });
    assert_eq!(header_text(&state, 12), " [LOADING] U");
    state.selected_link_index = Some(0);
    let footer = footer_text(&state, 80);
    assert_eq!(footer.chars().count(), 80);
    assert!(footer.starts_with(" G:Go B:Back F:Fwd TAB:Nav C-B:Book L:List Q:Quit | LINK: gemini://x/l"));
    state.input_mode = gemini_browser::domain::InputMode::Editing;
    state.url_input = "abc".into();
    assert_eq!(footer_text(&state, 14), " OPEN URL: abc");
    assert_eq!(footer_text(&state, 16), " OPEN URL: abc  ");
}

#[test]
fn bookmark_rows_fit_the_screen() {
    let bookmarks = vec![
        Bookmark { url: "gemini://one".into(), title: "one".into() },
        Bookmark { url: "gemini://two".into(), title: "two".into() },
        Bookmark { url: "gemini://three".into(), title: "three".into() },
    ];
    let mut state = BrowserState::new(bookmarks);
    state.selected_bookmark_index = 1;
    let rows = bookmark_rows(&state, 5, 80);
    assert_eq!(rows.len(), 2);
    assert_eq!(rows[0].row, 2);
    assert_eq!(rows[0].text, " > gemini://one ");
    assert!(rows[1].selected);
    assert_eq!(bookmark_rows(&state, 100, 8)[2].text, " > gemin");
}

#[test]
fn help_is_centred() {
    let rows = help_rows(24, 80);
    assert_eq!(rows.len(), 5);
    assert_eq!(rows[0].row, 10);
    assert_eq!(rows[0].col, 34);
    assert_eq!(rows[0].text, "--- HELP ---");
    assert_eq!(rows[4].row, 14);
    let small = help_rows(1, 10);
    assert_eq!(small[0].row, -2);
    assert_eq!(small[1].col, -12);
}

#[test]
fn wrap_goes_line_by_line() {
    let text = "one two three\n   \nfour five\n\nsix";
    for width in 1..12 {
        let mut expected: Vec<String> = Vec::new();
        for piece in text.split('\n') {
            if piece.split_whitespace().next().is_some() {
                expected.extend(wrap_text(piece, width));
            }
        }
        assert_eq!(wrap_text(text, width), expected, "width {}", width);
    }
    assert_eq!(
        wrap_text("a\n\nb", 10),
        vec!["a".to_string(), "b".to_string()]
    );
    assert_eq!(wrap_text(" \n\t\n", 10), vec!["".to_string()]);
}
