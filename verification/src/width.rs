//! Display widths of text in terminal columns, as the `unicode-width` crate computes them.
use vstd::prelude::*;
use unicode_width::{UnicodeWidthChar, UnicodeWidthStr};

verus! {

/// The displayed width of `s` in columns (`unicode_width::UnicodeWidthStr::width`).
pub uninterp spec fn str_width(s: Seq<char>) -> usize;

/// The displayed width of `c` in columns, `None` for a control character
/// (`unicode_width::UnicodeWidthChar::width`).
pub uninterp spec fn char_width(c: char) -> Option<usize>;

/// Calls `UnicodeWidthStr::width`. Claimed: the result is `str_width` of the text.
#[verifier::external_body]
pub(crate) fn display_width(s: &str) -> (w: usize)
    ensures
        w == str_width(s@),
{
    UnicodeWidthStr::width(s)
}

/// Calls `UnicodeWidthChar::width`. Claimed: the result is `char_width` of the character.
#[verifier::external_body]
pub(crate) fn char_display_width(c: char) -> (w: Option<usize>)
    ensures
        w == char_width(c),
{
    UnicodeWidthChar::width(c)
}

} // verus!
