//! Request methods and their tokens.

use vstd::prelude::*;
use vstd::utf8::*;
use vstd::string::StringSliceAdditionalSpecFns;
use crate::error::{ErrorView, HttpError, HttpErrorKind};
use crate::text::{is_space, lemma_ascii_text, no_space};
use crate::version::version_of;

verus! {

/// The request methods.
#[derive(Debug, Clone, Copy, PartialEq, Eq, Structural)]
pub enum Method {
    GET,
    POST,
    PUT,
    DELETE,
    HEAD,
    OPTIONS,
    CONNECT,
    TRACE,
}

/// The error for a token that names no method.
pub open spec fn unknown_method() -> ErrorView {
    ErrorView { kind: HttpErrorKind::RequestError, message: "Bad Request"@, code: 400 }
}

/// The method that the token `t` names, if it names one.
pub open spec fn method_of(t: Seq<u8>) -> Option<Method> {
    if t == Method::GET.token() {
        Some(Method::GET)
    } else if t == Method::POST.token() {
        Some(Method::POST)
    } else if t == Method::PUT.token() {
        Some(Method::PUT)
    } else if t == Method::DELETE.token() {
        Some(Method::DELETE)
    } else if t == Method::HEAD.token() {
        Some(Method::HEAD)
    } else if t == Method::OPTIONS.token() {
        Some(Method::OPTIONS)
    } else if t == Method::CONNECT.token() {
        Some(Method::CONNECT)
    } else if t == Method::TRACE.token() {
        Some(Method::TRACE)
    } else {
        None
    }
}

impl Method {
    /// The upper-case token that names the method on the wire.
    pub open spec fn token(self) -> Seq<u8> {
        match self {
            Method::GET => seq![71u8, 69, 84],
            Method::POST => seq![80u8, 79, 83, 84],
            Method::PUT => seq![80u8, 85, 84],
            Method::DELETE => seq![68u8, 69, 76, 69, 84, 69],
            Method::HEAD => seq![72u8, 69, 65, 68],
            Method::OPTIONS => seq![79u8, 80, 84, 73, 79, 78, 83],
            Method::CONNECT => seq![67u8, 79, 78, 78, 69, 67, 84],
            Method::TRACE => seq![84u8, 82, 65, 67, 69],
        }
    }

    /// The text of the token.
    pub open spec fn name(self) -> Seq<char> {
        match self {
            Method::GET => "GET"@,
            Method::POST => "POST"@,
            Method::PUT => "PUT"@,
            Method::DELETE => "DELETE"@,
            Method::HEAD => "HEAD"@,
            Method::OPTIONS => "OPTIONS"@,
            Method::CONNECT => "CONNECT"@,
            Method::TRACE => "TRACE"@,
        }
    }

    /// The token is the UTF-8 form of the name.
    pub proof fn lemma_name_bytes(self)
        ensures
            encode_utf8(self.name()) == self.token(),
    {
        reveal_strlit("GET");
        reveal_strlit("POST");
        reveal_strlit("PUT");
        reveal_strlit("DELETE");
        reveal_strlit("HEAD");
        reveal_strlit("OPTIONS");
        reveal_strlit("CONNECT");
        reveal_strlit("TRACE");
        lemma_ascii_text(self.name(), self.token());
    }

    /// A method's token is one word, and names that method and no
    /// version.
    pub proof fn lemma_token(self)
        ensures
            self.token().len() > 0,
            no_space(self.token()),
            method_of(self.token()) == Some(self),
            version_of(self.token()) is None,
    {
        let t = self.token();
        assert forall|i: int| 0 <= i < t.len() implies !is_space(#[trigger] t[i]) by {
            assert(t[i] >= 65);
        }
        assert(Method::GET.token()[0] != Method::PUT.token()[0]);
        assert(Method::POST.token()[0] != Method::HEAD.token()[0]);
        assert(Method::OPTIONS.token()[0] != Method::CONNECT.token()[0]);
        assert(t.len() != 8);
    }

    /// The method that the bytes `t` name.
    pub fn from_bytes(t: &[u8]) -> (r: Option<Method>)
        ensures
            r == method_of(t@),
    {
        let n = t.len();
        if n == 3 && t[0] == 71 && t[1] == 69 && t[2] == 84 {
            assert(t@ =~= Method::GET.token());
            Some(Method::GET)
        } else if n == 4 && t[0] == 80 && t[1] == 79 && t[2] == 83 && t[3] == 84 {
            assert(t@ =~= Method::POST.token());
            Some(Method::POST)
        } else if n == 3 && t[0] == 80 && t[1] == 85 && t[2] == 84 {
            assert(t@ =~= Method::PUT.token());
            Some(Method::PUT)
        } else if n == 6 && t[0] == 68 && t[1] == 69 && t[2] == 76 && t[3] == 69 && t[4] == 84
            && t[5] == 69 {
            assert(t@ =~= Method::DELETE.token());
            Some(Method::DELETE)
        } else if n == 4 && t[0] == 72 && t[1] == 69 && t[2] == 65 && t[3] == 68 {
            assert(t@ =~= Method::HEAD.token());
            Some(Method::HEAD)
        } else if n == 7 && t[0] == 79 && t[1] == 80 && t[2] == 84 && t[3] == 73 && t[4] == 79
            && t[5] == 78 && t[6] == 83 {
            assert(t@ =~= Method::OPTIONS.token());
            Some(Method::OPTIONS)
        } else if n == 7 && t[0] == 67 && t[1] == 79 && t[2] == 78 && t[3] == 78 && t[4] == 69
            && t[5] == 67 && t[6] == 84 {
            assert(t@ =~= Method::CONNECT.token());
            Some(Method::CONNECT)
        } else if n == 5 && t[0] == 84 && t[1] == 82 && t[2] == 65 && t[3] == 67 && t[4] == 69 {
            assert(t@ =~= Method::TRACE.token());
            Some(Method::TRACE)
        } else {
            None
        }
    }

    /// Reads a method from its token; any other text is a bad request.
    pub fn from_string(method: &str) -> (r: Result<Method, HttpError>)
        ensures
            match r {
                Ok(m) => method_of(method.spec_bytes()) == Some(m),
                Err(e) => method_of(method.spec_bytes()) is None && e@ == unknown_method(),
            },
    {
        match Method::from_bytes(method.as_bytes()) {
            Some(m) => Ok(m),
            None => Err(HttpError::new(HttpErrorKind::RequestError, "Bad Request", Some(400))),
        }
    }

    /// The token of the method as a string.
    pub fn to_string(method: &Method) -> (s: String)
        ensures
            s@ == method.name(),
            encode_utf8(s@) == method.token(),
    {
        proof {
            method.lemma_name_bytes();
        }
        let name: &str = match method {
            Method::GET => "GET",
            Method::POST => "POST",
            Method::PUT => "PUT",
            Method::DELETE => "DELETE",
            Method::HEAD => "HEAD",
            Method::OPTIONS => "OPTIONS",
            Method::CONNECT => "CONNECT",
            Method::TRACE => "TRACE",
        };
        name.to_owned()
    }
}

} // verus!
