use gemini_browser::client::{FetchStep, GeminiClient};
use gemini_browser::domain::GeminiLine;

fn parse_ok(url: &str, body: &[u8]) -> Vec<GeminiLine> {
    match GeminiClient::parse(url.to_string(), body) {
        Ok(page) => {
            assert_eq!(page.url, url);
            page.content
        }
        Err(e) => panic!("parse failed: {}", e),
    }
}

fn failure(step: FetchStep) -> String {
    match step {
        FetchStep::Done(Err(e)) => e,
        FetchStep::Done(Ok(_)) => panic!("expected an error, got a page"),
        FetchStep::Connect { .. } => panic!("expected an error, got a connection"),
    }
}

#[test]
fn test_parse_gemtext_full() {
    let body = b"# H1\n## H2\n### H3\n> Quote\n* Item\nNormal text";
    let content = parse_ok("gemini://localhost", body);

    assert_eq!(content.len(), 6);
    match &content[0] {
        GeminiLine::Header(1, t) => assert_eq!(t, "H1"),
        _ => panic!(),
    }
    match &content[1] {
        GeminiLine::Header(2, t) => assert_eq!(t, "H2"),
        _ => panic!(),
    }
    match &content[2] {
        GeminiLine::Header(3, t) => assert_eq!(t, "H3"),
        _ => panic!(),
    }
    match &content[3] {
        GeminiLine::Quote(t) => assert_eq!(t, "Quote"),
        _ => panic!(),
    }
    match &content[4] {
        GeminiLine::ListItem(t) => assert_eq!(t, "Item"),
        _ => panic!(),
    }
    match &content[5] {
        GeminiLine::Text(t) => assert_eq!(t, "Normal text"),
        _ => panic!(),
    }
}

#[test]
fn test_parse_preformatted_blocks() {
    let body = b"Text\n```\n=> /fake-link\n# Not a header\n```\nMore text";
    let content = parse_ok("gemini://localhost", body);

    assert_eq!(content.len(), 4);
    assert!(matches!(content[0], GeminiLine::Text(_)));
    match &content[1] {
        GeminiLine::Preformatted(t) => assert_eq!(t, "=> /fake-link"),
        _ => panic!("Expected preformatted line, got {:?}", content[1]),
    }
    match &content[2] {
        GeminiLine::Preformatted(t) => assert_eq!(t, "# Not a header"),
        _ => panic!("Expected preformatted line, got {:?}", content[2]),
    }
    assert!(matches!(content[3], GeminiLine::Text(_)));
}

#[test]
fn test_parse_links_with_and_without_labels() {
    let body = b"=> /link1 Label One\n=> /link2\n=> /link3   \tLabel Three";
    let content = parse_ok("gemini://localhost", body);

    match &content[0] {
        GeminiLine::Link(u, l) => {
            assert_eq!(u, "gemini://localhost/link1");
            assert_eq!(l, "Label One");
        }
        _ => panic!(),
    }
    match &content[1] {
        GeminiLine::Link(u, l) => {
            assert_eq!(u, "gemini://localhost/link2");
            assert_eq!(l, "/link2");
        }
        _ => panic!(),
    }
    match &content[2] {
        GeminiLine::Link(u, l) => {
            assert_eq!(u, "gemini://localhost/link3");
            assert_eq!(l, "Label Three");
        }
        _ => panic!(),
    }
}

#[test]
fn test_parse_windows_line_endings() {
    let body = b"# Title\r\n=> /link Label\r\n* Item\r\n";
    let content = parse_ok("gemini://localhost", body);

    assert_eq!(content.len(), 3);
    if let GeminiLine::Text(t) = &content[0] {
        assert!(!t.contains('\r'));
    }
}

#[test]
fn test_invalid_scheme() {
    let res = GeminiClient::fetch("https://google.com", 5);
    assert!(matches!(res, FetchStep::Done(Err(_))));
    assert_eq!(failure(res), "Only gemini:// protocol is supported");
}

#[test]
fn test_redirect_limit_exhaustion() {
    let res = GeminiClient::fetch("gemini://localhost", 0);
    assert!(matches!(res, FetchStep::Done(Err(_))));
    assert_eq!(failure(res), "Too many redirects");
}

#[test]
fn test_parse_empty_body() {
    let content = parse_ok("gemini://localhost", b"");
    assert_eq!(content.len(), 0);
}

#[test]
fn test_parse_gemtext_with_empty_lines() {
    let content = parse_ok("gemini://localhost", b"Paragraph 1\n\nParagraph 2");

    assert_eq!(content.len(), 3);
    assert!(matches!(content[0], GeminiLine::Text(ref t) if t == "Paragraph 1"));
    assert!(matches!(content[1], GeminiLine::Text(ref t) if t == ""));
    assert!(matches!(content[2], GeminiLine::Text(ref t) if t == "Paragraph 2"));
}

#[test]
fn fetch_prepares_connection_with_default_port() {
    match GeminiClient::fetch("gemini://localhost/page", 5) {
        FetchStep::Connect { url, host, port, request, redirect_limit } => {
            assert_eq!(url, "gemini://localhost/page");
            assert_eq!(host, "localhost");
            assert_eq!(port, 1965);
            assert_eq!(request, "gemini://localhost/page\r\n");
            assert_eq!(redirect_limit, 5);
        }
        _ => panic!("expected a connection"),
    }
}

#[test]
fn fetch_uses_explicit_port() {
    match GeminiClient::fetch("gemini://example.org:1966/", 3) {
        FetchStep::Connect { host, port, .. } => {
            assert_eq!(host, "example.org");
            assert_eq!(port, 1966);
        }
        _ => panic!("expected a connection"),
    }
}

#[test]
fn fetch_without_host_fails() {
    assert_eq!(failure(GeminiClient::fetch("gemini:nohost", 5)), "Missing host");
}

#[test]
fn response_without_header_end_is_invalid() {
    match GeminiClient::handle_response("gemini://localhost", 5, b"20 text/gemini") {
        Some(step) => assert_eq!(failure(step), "Invalid response"),
        None => panic!("expected an outcome"),
    }
}

#[test]
fn response_with_error_status_quotes_header() {
    match GeminiClient::handle_response("gemini://localhost", 5, b"51 Not found\r\n") {
        Some(step) => assert_eq!(failure(step), "Server returned: 51 Not found"),
        None => panic!("expected an outcome"),
    }
}

#[test]
fn response_with_success_parses_body() {
    match GeminiClient::handle_response("gemini://localhost/", 5, b"20 text/gemini\r\n# Hi\r\nplain") {
        Some(FetchStep::Done(Ok(page))) => {
            assert_eq!(page.url, "gemini://localhost/");
            assert_eq!(
                page.content,
                vec![GeminiLine::Header(1, "Hi".to_string()), GeminiLine::Text("plain".to_string())]
            );
        }
        _ => panic!("expected a page"),
    }
}

#[test]
fn redirect_spends_one_from_budget() {
    match GeminiClient::handle_response("gemini://localhost/a", 4, b"31 /b\r\n") {
        Some(FetchStep::Connect { url, redirect_limit, .. }) => {
            assert_eq!(url, "gemini://localhost/b");
            assert_eq!(redirect_limit, 3);
        }
        _ => panic!("expected a new connection"),
    }
}

#[test]
fn redirect_with_last_budget_fails() {
    match GeminiClient::handle_response("gemini://localhost/a", 1, b"30 gemini://other/\r\n") {
        Some(step) => assert_eq!(failure(step), "Too many redirects"),
        None => panic!("expected an outcome"),
    }
}

#[test]
fn redirect_to_other_scheme_fails() {
    match GeminiClient::handle_response("gemini://localhost/a", 5, b"30 https://example.org/\r\n") {
        Some(step) => assert_eq!(failure(step), "Only gemini:// protocol is supported"),
        None => panic!("expected an outcome"),
    }
}

#[test]
fn redirect_to_unparsable_url_fails() {
    match GeminiClient::handle_response("gemini://localhost/a", 5, b"30 http://[::1\r\n") {
        Some(step) => assert_eq!(failure(step), "Invalid redirect URL"),
        None => panic!("expected an outcome"),
    }
}

#[test]
fn short_redirect_header_has_no_outcome() {
    assert!(GeminiClient::handle_response("gemini://localhost/a", 5, b"3\r\n").is_none());
}

#[test]
fn header_handling_matches_response_handling() {
    match GeminiClient::handle_header("gemini://localhost", 2, "42 slow down", b"") {
        FetchStep::Done(Err(e)) => assert_eq!(e, "Server returned: 42 slow down"),
        _ => panic!("expected an error"),
    }
}

#[test]
fn invalid_utf8_is_replaced() {
    let content = parse_ok("gemini://localhost", b"a\xffb");
    assert_eq!(content, vec![GeminiLine::Text("a\u{fffd}b".to_string())]);
}

#[test]
fn carriage_returns_at_line_ends_are_dropped() {
    let content = parse_ok("gemini://localhost", b"plain\r\r\n```\r\npre\r\n```\r\n");
    assert_eq!(
        content,
        vec![GeminiLine::Text("plain".to_string()), GeminiLine::Preformatted("pre".to_string())]
    );
}

#[test]
fn link_line_variants() {
    let content = parse_ok("gemini://host/dir/", b"=>rel\n=>  \n=> gemini://abs/x  label  \n=>http://[::1");
    assert_eq!(
        content,
        vec![
            GeminiLine::Link("gemini://host/dir/rel".to_string(), "rel".to_string()),
            GeminiLine::Link("gemini://host/dir/".to_string(), "".to_string()),
            GeminiLine::Link("gemini://abs/x".to_string(), "label".to_string()),
        ]
    );
}

#[test]
fn markers_need_their_exact_form() {
    let content = parse_ok("gemini://h", b"*not item\n#no space\n>quote\n  ");
    assert_eq!(
        content,
        vec![
            GeminiLine::Text("*not item".to_string()),
            GeminiLine::Header(1, "no space".to_string()),
            GeminiLine::Quote("quote".to_string()),
            GeminiLine::Text("  ".to_string()),
        ]
    );
}
