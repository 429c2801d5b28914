//! What can go wrong when a page is rendered.

use vstd::prelude::*;

verus! {

/// Why a page could not be rendered.
#[derive(Debug)]
pub enum Error {
    /// A link has no destination.
    MissingUrl,
    /// This internal link leads nowhere.
    LinkNotFound(String),
    /// The template of the anchor links failed, for this reason.
    AnchorTemplate(String),
    /// The events of the page have no rendering: a heading is not closed, the code of a block comes
    /// in pieces, a marker number does not fit into a machine word, no syntax can show the code, or
    /// no anchor is left for a heading.
    Unrenderable,
}

/// What an `Error` holds.
pub enum ErrorView {
    MissingUrl,
    LinkNotFound(Seq<char>),
    AnchorTemplate(Seq<char>),
    Unrenderable,
}

impl View for Error {
    type V = ErrorView;

    open spec fn view(&self) -> ErrorView {
        match *self {
            Error::MissingUrl => ErrorView::MissingUrl,
            Error::LinkNotFound(link) => ErrorView::LinkNotFound(link@),
            Error::AnchorTemplate(reason) => ErrorView::AnchorTemplate(reason@),
            Error::Unrenderable => ErrorView::Unrenderable,
        }
    }
}

/// What an error that may be missing holds.
pub open spec fn error_view(error: Option<Error>) -> Option<ErrorView> {
    match error {
        Some(e) => Some(e@),
        None => None,
    }
}

/// The message of an error.
pub open spec fn error_message(error: ErrorView) -> Seq<char> {
    match error {
        ErrorView::MissingUrl => "There is a link that is missing a URL"@,
        ErrorView::LinkNotFound(link) => "Relative link "@ + link + " not found."@,
        ErrorView::AnchorTemplate(_) => "Failed to render anchor link template"@,
        ErrorView::Unrenderable => "The page has no rendering"@,
    }
}

impl Error {
    /// The message of the error.
    pub fn message(&self) -> (r: String)
        ensures
            r@ == error_message(self@),
    {
        match self {
            Error::MissingUrl => String::from_str("There is a link that is missing a URL"),
            Error::LinkNotFound(link) => {
                let mut message = String::from_str("Relative link ");
                message.append(link.as_str());
                message.append(" not found.");
                message
            },
            Error::AnchorTemplate(_) => String::from_str("Failed to render anchor link template"),
            Error::Unrenderable => String::from_str("The page has no rendering"),
        }
    }
}

} // verus!
