//! The error that every fallible function of the crate returns.

use vstd::prelude::*;

verus! {

/// The class of a failure, which decides how a connection answers it.
#[derive(Debug, Clone, Copy, PartialEq, Eq, Structural)]
pub enum HttpErrorKind {
    /// The request was understood far enough to be answered with a status.
    RequestError,
    /// A response could not be read or written.
    ResponseError,
    /// The byte stream does not follow the message grammar.
    ParseError,
    /// The connection failed.
    IOError,
}

/// A failure with its class, a message for people and a suggested status
/// code; the code is 0 where none is suggested.
#[derive(Debug, Clone)]
pub struct HttpError {
    kind: HttpErrorKind,
    err_msg: String,
    err_code: u32,
}

/// What an [`HttpError`] holds, as plain values.
pub struct ErrorView {
    pub kind: HttpErrorKind,
    pub message: Seq<char>,
    pub code: u32,
}

impl View for HttpError {
    type V = ErrorView;

    closed spec fn view(&self) -> ErrorView {
        ErrorView { kind: self.kind, message: self.err_msg@, code: self.err_code }
    }
}

impl HttpError {
    /// Builds an error; a missing code is stored as 0.
    pub fn new(kind: HttpErrorKind, msg: &str, code: Option<u32>) -> (e: HttpError)
        ensures
            e@.kind == kind,
            e@.message == msg@,
            e@.code == (match code {
                Some(c) => c,
                None => 0u32,
            }),
    {
        let err_code: u32 = match code {
            Some(c) => c,
            None => 0,
        };
        HttpError { kind, err_msg: msg.to_owned(), err_code }
    }

    /// The class of the failure.
    pub fn kind(&self) -> (k: HttpErrorKind)
        ensures
            k == self@.kind,
    {
        self.kind
    }

    /// The message.
    pub fn message(&self) -> (m: &str)
        ensures
            m@ == self@.message,
    {
        self.err_msg.as_str()
    }

    /// The suggested status code, 0 where there is none.
    pub fn code(&self) -> (c: u32)
        ensures
            c == self@.code,
    {
        self.err_code
    }

    /// The text `HttpError: ` followed by the message.
    pub fn to_string(&self) -> (s: String)
        ensures
            s@ == "HttpError: "@ + self@.message,
    {
        let head: String = "HttpError: ".to_owned();
        head.concat(self.err_msg.as_str())
    }
}

} // verus!
