//! Markup documents and CSS selectors, as the `scraper` crate reads them.
//!
//! Nothing in this module is proved: it states what the rest of the library
//! takes on trust about `scraper` and about the UTF-8 check of the standard
//! library.
//!
//! `scraper` is only ever handed texts of bounded length. Its parsers keep
//! counters and buffers of 32 bits, which a text of some gigabytes overruns
//! with a panic, and it matches a selector by a recursion as deep as the
//! selector is long.

use scraper::{Html, Selector};
use vstd::prelude::*;
use vstd::string::StringSliceAdditionalSpecFns;
use vstd::utf8::valid_utf8;

verus! {

/// The greatest length in bytes of a document that is handed to `scraper`.
///
/// The parser may put three bytes where it read one, and its buffers end
/// below 2^31 bytes: the limit is a quarter of that.
pub const MARKUP_LIMIT: usize = 0x2000_0000;

/// The greatest length in bytes of a selector that is handed to `scraper`.
pub const SELECTOR_LIMIT: usize = 1024;

/// Whether `selector` is a CSS selector group that `scraper` accepts: whether
/// `scraper::Selector::parse` returns `Ok` for it.
pub uninterp spec fn selector_accepted(selector: Seq<char>) -> bool;

/// The number of elements that `scraper::Html::select` hands out for
/// `selector`, parsed by `scraper::Selector::parse`, from what
/// `scraper::Html::parse_document` made of `document`.
pub uninterp spec fn matching_elements(document: Seq<char>, selector: Seq<char>) -> nat;

/// Calls `scraper::Selector::parse` and tells whether it accepted `selector`.
///
/// Trusted: that the outcome depends on the text of `selector` alone, and
/// that the call returns for a selector within [`SELECTOR_LIMIT`].
#[verifier::external_body]
pub(crate) fn selector_parses(selector: &str) -> (accepted: bool)
    requires
        selector.spec_bytes().len() <= SELECTOR_LIMIT,
    ensures
        accepted == selector_accepted(selector@),
{
    Selector::parse(selector).is_ok()
}

/// Parses `selector` with `scraper::Selector::parse` and `document` with
/// `scraper::Html::parse_document`, and counts what `scraper::Html::select`
/// hands out.
///
/// Trusted: that the count depends on the two texts alone, that `None`
/// comes back exactly for a selector that `scraper` does not accept, and
/// that the calls return for texts within [`SELECTOR_LIMIT`] and
/// [`MARKUP_LIMIT`]. Within its limit no document is refused: the parser
/// recovers from every malformation of the markup.
#[verifier::external_body]
pub(crate) fn count_matching(document: &str, selector: &str) -> (count: Option<usize>)
    requires
        document.spec_bytes().len() <= MARKUP_LIMIT,
        selector.spec_bytes().len() <= SELECTOR_LIMIT,
    ensures
        count is Some <==> selector_accepted(selector@),
        count matches Some(n) ==> n == matching_elements(document@, selector@),
{
    match Selector::parse(selector) {
        Ok(compiled) => Some(Html::parse_document(document).select(&compiled).count()),
        Err(_) => None,
    }
}

/// Calls `std::str::from_utf8`.
///
/// Trusted: that the bytes are taken as text exactly when they are well-formed
/// UTF-8, and that the text then has those bytes as its encoding.
#[verifier::external_body]
pub(crate) fn text_of(bytes: &[u8]) -> (text: Option<&str>)
    ensures
        text is Some <==> valid_utf8(bytes@),
        text matches Some(t) ==> t.spec_bytes() == bytes@,
{
    std::str::from_utf8(bytes).ok()
}

} // verus!
