//! Protocol versions and their tokens.

use vstd::prelude::*;
use vstd::utf8::*;
use vstd::string::StringSliceAdditionalSpecFns;
use crate::error::{ErrorView, HttpError, HttpErrorKind};
use crate::method::method_of;
use crate::text::{is_space, lemma_ascii_text, no_space};

verus! {

/// The protocol versions whose tokens are recognised.
#[derive(Debug, Clone, Copy, PartialEq, Eq, Structural)]
pub enum Version {
    Http1_0,
    Http1_1,
    Http2_0,
    Http3_0,
}

/// The error for a token that names no version.
pub open spec fn unknown_version() -> ErrorView {
    ErrorView { kind: HttpErrorKind::ParseError, message: "Error parsing version"@, code: 0 }
}

/// The version that the token `t` names, if it names one.
pub open spec fn version_of(t: Seq<u8>) -> Option<Version> {
    if t == Version::Http1_0.token() {
        Some(Version::Http1_0)
    } else if t == Version::Http1_1.token() {
        Some(Version::Http1_1)
    } else if t == Version::Http2_0.token() {
        Some(Version::Http2_0)
    } else if t == Version::Http3_0.token() {
        Some(Version::Http3_0)
    } else {
        None
    }
}

impl Version {
    /// The token that names the version on the wire.
    pub open spec fn token(self) -> Seq<u8> {
        match self {
            Version::Http1_0 => seq![72u8, 84, 84, 80, 47, 49, 46, 48],
            Version::Http1_1 => seq![72u8, 84, 84, 80, 47, 49, 46, 49],
            Version::Http2_0 => seq![72u8, 84, 84, 80, 47, 50, 46, 48],
            Version::Http3_0 => seq![72u8, 84, 84, 80, 47, 51, 46, 48],
        }
    }

    /// The text of the token.
    pub open spec fn name(self) -> Seq<char> {
        match self {
            Version::Http1_0 => "HTTP/1.0"@,
            Version::Http1_1 => "HTTP/1.1"@,
            Version::Http2_0 => "HTTP/2.0"@,
            Version::Http3_0 => "HTTP/3.0"@,
        }
    }

    /// The token is the UTF-8 form of the name.
    pub proof fn lemma_name_bytes(self)
        ensures
            encode_utf8(self.name()) == self.token(),
    {
        reveal_strlit("HTTP/1.0");
        reveal_strlit("HTTP/1.1");
        reveal_strlit("HTTP/2.0");
        reveal_strlit("HTTP/3.0");
        lemma_ascii_text(self.name(), self.token());
    }

    /// A version's token is one word, and names that version and no
    /// method.
    pub proof fn lemma_token(self)
        ensures
            self.token().len() > 0,
            no_space(self.token()),
            version_of(self.token()) == Some(self),
            method_of(self.token()) is None,
    {
        let t = self.token();
        assert forall|i: int| 0 <= i < t.len() implies !is_space(#[trigger] t[i]) by {
            assert(t[i] >= 46);
        }
        assert(Version::Http1_0.token()[7] != Version::Http1_1.token()[7]);
        assert(Version::Http1_0.token()[5] != Version::Http2_0.token()[5]);
        assert(Version::Http1_0.token()[5] != Version::Http3_0.token()[5]);
        assert(Version::Http1_1.token()[7] != Version::Http2_0.token()[7]);
        assert(Version::Http1_1.token()[7] != Version::Http3_0.token()[7]);
        assert(Version::Http2_0.token()[5] != Version::Http3_0.token()[5]);
        assert(t.len() == 8);
    }

    /// The version that the bytes `t` name.
    pub fn from_bytes(t: &[u8]) -> (r: Option<Version>)
        ensures
            r == version_of(t@),
    {
        if t.len() == 8 && t[0] == 72 && t[1] == 84 && t[2] == 84 && t[3] == 80 && t[4] == 47
            && t[6] == 46 {
            if t[5] == 49 && t[7] == 48 {
                assert(t@ =~= Version::Http1_0.token());
                Some(Version::Http1_0)
            } else if t[5] == 49 && t[7] == 49 {
                assert(t@ =~= Version::Http1_1.token());
                Some(Version::Http1_1)
            } else if t[5] == 50 && t[7] == 48 {
                assert(t@ =~= Version::Http2_0.token());
                Some(Version::Http2_0)
            } else if t[5] == 51 && t[7] == 48 {
                assert(t@ =~= Version::Http3_0.token());
                Some(Version::Http3_0)
            } else {
                None
            }
        } else {
            None
        }
    }

    /// Reads a version from its token; any other text is a parse error.
    pub fn from_str(version: &str) -> (r: Result<Version, HttpError>)
        ensures
            match r {
                Ok(v) => version_of(version.spec_bytes()) == Some(v),
                Err(e) => version_of(version.spec_bytes()) is None && e@ == unknown_version(),
            },
    {
        match Version::from_bytes(version.as_bytes()) {
            Some(v) => Ok(v),
            None => Err(HttpError::new(HttpErrorKind::ParseError, "Error parsing version", None)),
        }
    }

    /// The token of the version as a string.
    pub fn to_str(version: Version) -> (s: String)
        ensures
            s@ == version.name(),
            encode_utf8(s@) == version.token(),
    {
        proof {
            version.lemma_name_bytes();
        }
        let name: &str = match version {
            Version::Http1_0 => "HTTP/1.0",
            Version::Http1_1 => "HTTP/1.1",
            Version::Http2_0 => "HTTP/2.0",
            Version::Http3_0 => "HTTP/3.0",
        };
        name.to_owned()
    }
}

} // verus!
