//! The Gemini client's decisions: what a request needs before it goes out, and what a
//! response means once it has come back. The network work itself is done by the caller.
use vstd::prelude::*;
use crate::decode::{decode_lossy, utf8_lossy};
use vstd::utf8::{decode_utf8, valid_utf8};
use crate::domain::{Page, lines_view};
use crate::gemtext::{gemtext, parse_gemtext};
use crate::text::{chars_of, concat_str, string_from, trim, trim_bounds};
use crate::urls::{host_of, join_url, port_of, scheme_of, url_host_of, url_join_result, url_port_of, url_scheme_of};

verus! {

broadcast use vstd::string::group_string_axioms;

/// The port a Gemini server listens on when the URL names none.
pub const DEFAULT_PORT: u16 = 1965;

/// The Gemini client.
pub struct GeminiClient;

/// The next step of a fetch.
pub enum FetchStep {
    /// Connect to `host:port` over TLS, send `request`, read the whole response and hand it
    /// to `GeminiClient::handle_response` with the same `url` and `redirect_limit`.
    Connect { url: String, host: String, port: u16, request: String, redirect_limit: u8 },
    /// The fetch is over, with this outcome.
    Done(Result<Page, String>),
}

/// Whether `res` is a finished fetch that failed with the message `msg`.
pub open spec fn fails_with(res: FetchStep, msg: Seq<char>) -> bool {
    res matches FetchStep::Done(Err(e)) && e@ == msg
}

/// What `GeminiClient::fetch` decides for the URL `url` with `limit` redirects left.
pub open spec fn fetch_spec(url: Seq<char>, limit: u8, res: FetchStep) -> bool {
    if limit == 0 {
        fails_with(res, "Too many redirects"@)
    } else if url_scheme_of(url) != Some("gemini"@) {
        fails_with(res, "Only gemini:// protocol is supported"@)
    } else if url_host_of(url) is None {
        fails_with(res, "Missing host"@)
    } else {
        &&& res matches FetchStep::Connect { url: u, host, port, request, redirect_limit }
        &&& u@ == url
        &&& Some(host@) == url_host_of(url)
        &&& port == match url_port_of(url) {
            Some(p) => p,
            None => DEFAULT_PORT,
        }
        &&& request@ == url + "\r\n"@
        &&& redirect_limit == limit
    }
}

/// The byte length of the UTF-8 encoding of `c`.
pub open spec fn utf8_len(c: char) -> int {
    if (c as u32) < 0x80 {
        1
    } else if (c as u32) < 0x800 {
        2
    } else if (c as u32) < 0x10000 {
        3
    } else {
        4
    }
}

/// For a header that starts with an ASCII character, the number of characters that make
/// up its first three bytes, where the third byte ends a character; `None` otherwise
/// (slicing the header at byte 3 would fail there).
pub open spec fn redirect_skip(h: Seq<char>) -> Option<int> {
    if h.len() >= 2 && utf8_len(h[1]) == 2 {
        Some(2)
    } else if h.len() >= 3 && utf8_len(h[1]) == 1 && utf8_len(h[2]) == 1 {
        Some(3)
    } else {
        None
    }
}

/// Whether a response header asks for a redirect (its status starts with 3).
pub open spec fn is_redirect(h: Seq<char>) -> bool {
    h.len() > 0 && h[0] == '3'
}

/// Whether a response header reports success (its status starts with 2).
pub open spec fn is_success(h: Seq<char>) -> bool {
    h.len() > 0 && h[0] == '2'
}

/// The position of the first CR LF pair in `raw` at or after `i`, or `raw.len()` where
/// there is none.
pub open spec fn crlf_from(raw: Seq<u8>, i: int) -> int
    decreases raw.len() - i,
{
    if i < 0 || i + 1 >= raw.len() {
        raw.len() as int
    } else if raw[i] == 13 && raw[i + 1] == 10 {
        i
    } else {
        crlf_from(raw, i + 1)
    }
}

/// What `GeminiClient::handle_header` decides for a response to `url` with header `h` and
/// body `body`, `limit` redirects being left.
pub open spec fn header_spec(url: Seq<char>, limit: u8, h: Seq<char>, body: Seq<u8>, res: FetchStep) -> bool {
    if is_redirect(h) {
        match url_join_result(url, trim(h.skip(redirect_skip(h)->0))) {
            Some(t) => fetch_spec(t, (limit - 1) as u8, res),
            None => fails_with(res, "Invalid redirect URL"@),
        }
    } else if is_success(h) {
        res matches FetchStep::Done(Ok(page)) && page.url@ == url && lines_view(page.content@)
            == gemtext(url, utf8_lossy(body))
    } else {
        fails_with(res, "Server returned: "@ + h)
    }
}

/// The utf-8 length of a character.
fn char_utf8_len(c: char) -> (n: usize)
    ensures
        n == utf8_len(c),
{
    let x = c as u32;
    if x < 0x80 {
        1
    } else if x < 0x800 {
        2
    } else if x < 0x10000 {
        3
    } else {
        4
    }
}

impl GeminiClient {
    /// Checks a request before it goes out: the redirect budget, the scheme and the host;
    /// where all pass, says where to connect and what to send.
    pub fn fetch(url: &str, redirect_limit: u8) -> (res: FetchStep)
        ensures
            fetch_spec(url@, redirect_limit, res),
    {
        if redirect_limit == 0 {
            return FetchStep::Done(Err(String::from_str("Too many redirects")));
        }
        let gemini = String::from_str("gemini");
        let scheme_ok = match scheme_of(url) {
            Some(s) => s == gemini,
            None => false,
        };
        if !scheme_ok {
            return FetchStep::Done(Err(String::from_str("Only gemini:// protocol is supported")));
        }
        let host = match host_of(url) {
            Some(h) => h,
            None => {
                return FetchStep::Done(Err(String::from_str("Missing host")));
            },
        };
        let port = match port_of(url) {
            Some(p) => p,
            None => DEFAULT_PORT,
        };
        let request = concat_str(url, "\r\n");
        FetchStep::Connect { url: String::from_str(url), host, port, request, redirect_limit }
    }

    /// The page that a response body makes: its lines parsed as gemtext against the
    /// page's URL.
    pub fn parse(url: String, body: &[u8]) -> (res: Result<Page, String>)
        ensures
            res matches Ok(page) && page.url == url && lines_view(page.content@) == gemtext(
                url@,
                utf8_lossy(body@),
            ),
            valid_utf8(body@) ==> (res matches Ok(page) && lines_view(page.content@) == gemtext(
                url@,
                decode_utf8(body@),
            )),
    {
        let text = decode_lossy(body);
        let chars = chars_of(text.as_str());
        let content = parse_gemtext(url.as_str(), &chars);
        Ok(Page { url, content })
    }

    /// What a response means, given its header line (already decoded) and its body:
    /// a redirect starts a new fetch with one redirect less, a success is parsed, anything
    /// else is an error that quotes the header.
    pub fn handle_header(url: &str, redirect_limit: u8, header: &str, body: &[u8]) -> (res: FetchStep)
        requires
            redirect_limit > 0,
            is_redirect(header@) ==> redirect_skip(header@) is Some,
        ensures
            header_spec(url@, redirect_limit, header@, body@, res),
    {
        let h = chars_of(header);
        if h.len() > 0 && h[0] == '3' {
            let skip: usize = if h.len() >= 2 && char_utf8_len(h[1]) == 2 {
                2
            } else {
                3
            };
            let (a, b) = trim_bounds(&h, skip, h.len());
            assert(h@.skip(skip as int) =~= h@.subrange(skip as int, h@.len() as int));
            let target = string_from(&h, a, b);
            match join_url(url, target.as_str()) {
                Some(t) => Self::fetch(t.as_str(), redirect_limit - 1),
                None => FetchStep::Done(Err(String::from_str("Invalid redirect URL"))),
            }
        } else if h.len() > 0 && h[0] == '2' {
            FetchStep::Done(Self::parse(String::from_str(url), body))
        } else {
            FetchStep::Done(Err(concat_str("Server returned: ", header)))
        }
    }

    /// What a whole response means: its header line runs up to the first CR LF, the body
    /// follows it. `None` where the header asks for a redirect but cannot be cut after its
    /// third byte (there is no outcome to report).
    pub fn handle_response(url: &str, redirect_limit: u8, raw: &[u8]) -> (res: Option<FetchStep>)
        requires
            redirect_limit > 0,
        ensures
            crlf_from(raw@, 0) >= raw@.len() ==> (res matches Some(step) && fails_with(
                step,
                "Invalid response"@,
            )),
            crlf_from(raw@, 0) < raw@.len() ==> {
                let h = utf8_lossy(raw@.take(crlf_from(raw@, 0)));
                let body = raw@.skip(crlf_from(raw@, 0) + 2);
                &&& res is None <==> (is_redirect(h) && redirect_skip(h) is None)
                &&& res matches Some(step) ==> header_spec(url@, redirect_limit, h, body, step)
            },
    {
        let n = raw.len();
        let mut i: usize = 0;
        while i < n && i + 1 < n && !(raw[i] == 13 && raw[i + 1] == 10)
            invariant
                i <= n == raw@.len(),
                crlf_from(raw@, 0) == crlf_from(raw@, i as int),
            decreases n - i,
        {
            i = i + 1;
        }
        if i >= n || i + 1 >= n {
            return Some(FetchStep::Done(Err(String::from_str("Invalid response"))));
        }
        let (head, rest) = raw.split_at(i);
        let (_, body) = rest.split_at(2);
        assert(body@ =~= raw@.skip(i + 2));
        let header = decode_lossy(head);
        let h = chars_of(header.as_str());
        if h.len() > 0 && h[0] == '3' {
            let ok = (h.len() >= 2 && char_utf8_len(h[1]) == 2) || (h.len() >= 3 && char_utf8_len(h[1]) == 1
                && char_utf8_len(h[2]) == 1);
            if !ok {
                return None;
            }
        }
        Some(Self::handle_header(url, redirect_limit, header.as_str(), body))
    }
}

} // verus!
