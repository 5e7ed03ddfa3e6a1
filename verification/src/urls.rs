//! URLs as the library holds them: the text of their serialization. What only the
//! `url` crate can compute goes through the functions here.
use vstd::prelude::*;
use url::Url;

verus! {

/// The serialization of what `url::Url::parse` makes of `input`, or `None` where it fails.
pub uninterp spec fn url_parse_result(input: Seq<char>) -> Option<Seq<char>>;

/// The serialization of what `url::Url::join` makes of the reference `reference` against the
/// URL `base` (itself read with `url::Url::parse`), or `None` where either call fails.
pub uninterp spec fn url_join_result(base: Seq<char>, reference: Seq<char>) -> Option<Seq<char>>;

/// The scheme (`url::Url::scheme`) of the URL `url` reads as, or `None` where it does not parse.
pub uninterp spec fn url_scheme_of(url: Seq<char>) -> Option<Seq<char>>;

/// The host (`url::Url::host_str`) of the URL `url` reads as; `None` where it does not parse
/// or has no host.
pub uninterp spec fn url_host_of(url: Seq<char>) -> Option<Seq<char>>;

/// The explicit port (`url::Url::port`) of the URL `url` reads as; `None` where it does not
/// parse or names no port.
pub uninterp spec fn url_port_of(url: Seq<char>) -> Option<u16>;

/// Calls `url::Url::parse`. Claimed: the result is the serialization `url_parse_result` names,
/// and `None` exactly where that name is `None`.
#[verifier::external_body]
pub(crate) fn parse_url(input: &str) -> (res: Option<String>)
    ensures
        match res {
            Some(u) => url_parse_result(input@) == Some(u@),
            None => url_parse_result(input@) is None,
        },
{
    match Url::parse(input) {
        Ok(u) => Some(u.into()),
        Err(_) => None,
    }
}

/// Calls `url::Url::parse` on `base` and `url::Url::join` on the result. Claimed: the result
/// is the serialization `url_join_result` names, and `None` exactly where that name is `None`.
#[verifier::external_body]
pub(crate) fn join_url(base: &str, reference: &str) -> (res: Option<String>)
    ensures
        match res {
            Some(u) => url_join_result(base@, reference@) == Some(u@),
            None => url_join_result(base@, reference@) is None,
        },
{
    match Url::parse(base) {
        Ok(b) => match b.join(reference) {
            Ok(u) => Some(u.into()),
            Err(_) => None,
        },
        Err(_) => None,
    }
}

/// Calls `url::Url::parse` and `url::Url::scheme`. Claimed: the result is the text
/// `url_scheme_of` names.
#[verifier::external_body]
pub(crate) fn scheme_of(url: &str) -> (res: Option<String>)
    ensures
        match res {
            Some(s) => url_scheme_of(url@) == Some(s@),
            None => url_scheme_of(url@) is None,
        },
{
    match Url::parse(url) {
        Ok(u) => Some(u.scheme().to_string()),
        Err(_) => None,
    }
}

/// Calls `url::Url::parse` and `url::Url::host_str`. Claimed: the result is the text
/// `url_host_of` names.
#[verifier::external_body]
pub(crate) fn host_of(url: &str) -> (res: Option<String>)
    ensures
        match res {
            Some(s) => url_host_of(url@) == Some(s@),
            None => url_host_of(url@) is None,
        },
{
    match Url::parse(url) {
        Ok(u) => match u.host_str() {
            Some(h) => Some(h.to_string()),
            None => None,
        },
        Err(_) => None,
    }
}

/// Calls `url::Url::parse` and `url::Url::port`. Claimed: the result is what `url_port_of`
/// names.
#[verifier::external_body]
pub(crate) fn port_of(url: &str) -> (res: Option<u16>)
    ensures
        res == url_port_of(url@),
{
    match Url::parse(url) {
        Ok(u) => u.port(),
        Err(_) => None,
    }
}

} // verus!
