//! What can go wrong while talking to a venue.

use vstd::prelude::*;

verus! {

/// A failure in a venue adapter. Each variant carries the text that
/// describes the cause.
#[derive(Debug, Clone)]
pub enum ExchangeError {
    /// The streaming connection could not be made or broke.
    WebSocket(String),
    /// A request failed or its response could not be read.
    Http(String),
    /// A message was not of the expected shape.
    Parse(String),
    /// A message was well formed and held something that cannot be used.
    UnexpectedData(String),
}

/// The mathematical content of an `ExchangeError`.
pub enum ErrorView {
    WebSocket(Seq<char>),
    Http(Seq<char>),
    Parse(Seq<char>),
    UnexpectedData(Seq<char>),
}

impl View for ExchangeError {
    type V = ErrorView;

    open spec fn view(&self) -> ErrorView {
        match self {
            ExchangeError::WebSocket(m) => ErrorView::WebSocket(m@),
            ExchangeError::Http(m) => ErrorView::Http(m@),
            ExchangeError::Parse(m) => ErrorView::Parse(m@),
            ExchangeError::UnexpectedData(m) => ErrorView::UnexpectedData(m@),
        }
    }
}

impl ErrorView {
    /// The line that describes the error to a reader.
    pub open spec fn message(self) -> Seq<char> {
        match self {
            ErrorView::WebSocket(m) => "WebSocket error: "@ + m,
            ErrorView::Http(m) => "HTTP error: "@ + m,
            ErrorView::Parse(m) => "JSON parse error: "@ + m,
            ErrorView::UnexpectedData(m) => "Unexpected data from exchange: "@ + m,
        }
    }
}

impl ExchangeError {
    /// An `UnexpectedData` error with the given cause.
    pub fn unexpected(cause: &str) -> (e: ExchangeError)
        ensures
            e@ == ErrorView::UnexpectedData(cause@),
    {
        ExchangeError::UnexpectedData(cause.to_owned())
    }

    /// The line that describes the error to a reader.
    pub fn message(&self) -> (r: String)
        ensures
            r@ == self@.message(),
    {
        match self {
            ExchangeError::WebSocket(m) => "WebSocket error: ".to_owned().concat(m.as_str()),
            ExchangeError::Http(m) => "HTTP error: ".to_owned().concat(m.as_str()),
            ExchangeError::Parse(m) => "JSON parse error: ".to_owned().concat(m.as_str()),
            ExchangeError::UnexpectedData(m) => "Unexpected data from exchange: ".to_owned().concat(
                m.as_str(),
            ),
        }
    }
}

} // verus!
