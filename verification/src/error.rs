//! The errors a parse can end in. All are terminal: the first error found
//! anywhere in the recursion aborts the whole parse.

use vstd::prelude::*;

verus! {

/// The position carried by every error. Position tracking is not
/// implemented: each error holds this placeholder instead of a real offset.
pub const NO_POSITION: usize = 999;

/// Why a parse failed. Every kind but the first carries the offending text
/// fragment (a tag name or a header token) for diagnostics.
#[derive(Debug)]
pub enum Error {
    /// Non-whitespace text appeared before the root element.
    ContentOutsideRoot(usize),
    /// No `</tag>` text was found for an opened tag; carries the tag name.
    MissingClosingTag(String, usize),
    /// An opening `<...` segment never finds a terminating `>`.
    MissingClosingDelimiter(usize),
    /// A header token has no `=`; carries the token.
    MissingAttributeValue(String, usize),
    /// An attribute value is not wrapped in a pair of double quotes;
    /// carries the token.
    MissingQuotes(String, usize),
}

/// The mathematical value of an [`Error`].
#[verifier::ext_equal]
pub enum ErrorView {
    ContentOutsideRoot(int),
    MissingClosingTag(Seq<char>, int),
    MissingClosingDelimiter(int),
    MissingAttributeValue(Seq<char>, int),
    MissingQuotes(Seq<char>, int),
}

impl View for Error {
    type V = ErrorView;

    open spec fn view(&self) -> ErrorView {
        match self {
            Error::ContentOutsideRoot(p) => ErrorView::ContentOutsideRoot(*p as int),
            Error::MissingClosingTag(t, p) => ErrorView::MissingClosingTag(t@, *p as int),
            Error::MissingClosingDelimiter(p) => ErrorView::MissingClosingDelimiter(*p as int),
            Error::MissingAttributeValue(t, p) => ErrorView::MissingAttributeValue(t@, *p as int),
            Error::MissingQuotes(t, p) => ErrorView::MissingQuotes(t@, *p as int),
        }
    }
}

} // verus!
