//! The grammar of a message on the wire, as functions on bytes: what a
//! stream of bytes is read as, and what bytes a message is written as.

use vstd::prelude::*;
use vstd::utf8::*;
use crate::compress::{deflate_of, gzip_of};
use crate::error::{ErrorView, HttpErrorKind};
use crate::headers::{lookup, put, Header};
use crate::method::{method_of, Method};
use crate::text::{decimal, index_of, parse_decimal, split_on, tokens, trim, trim_each};
use crate::version::{unknown_version, version_of, Version};

verus! {

/// A frame as plain values; every text is given by its UTF-8 bytes.
pub enum FrameView {
    RequestHead { method: Method, uri: Seq<u8>, version: Version, headers: Seq<Header> },
    ResponseHead { code: u16, reason: Seq<u8>, version: Version, headers: Seq<Header> },
    BodyChunk { chunk: Seq<u8> },
}

/// The first line of a message.
pub enum StartLine {
    Request { method: Method, uri: Seq<u8>, version: Version },
    Status { version: Version, code: u16, reason: Seq<u8> },
}

/// What reading from a byte stream gave, and the bytes left unread.
pub struct Parsed<T> {
    pub outcome: Result<T, ErrorView>,
    pub rest: Seq<u8>,
}

/// The line terminator: carriage return, line feed.
pub open spec fn crlf() -> Seq<u8> {
    seq![13u8, 10u8]
}

/// The name `Content-Length`.
pub open spec fn content_length_name() -> Seq<u8> {
    seq![67u8, 111, 110, 116, 101, 110, 116, 45, 76, 101, 110, 103, 116, 104]
}

/// The name `Content-Encoding`.
pub open spec fn content_encoding_name() -> Seq<u8> {
    seq![67u8, 111, 110, 116, 101, 110, 116, 45, 69, 110, 99, 111, 100, 105, 110, 103]
}

/// The name `Accept-Encoding`.
pub open spec fn accept_encoding_name() -> Seq<u8> {
    seq![65u8, 99, 99, 101, 112, 116, 45, 69, 110, 99, 111, 100, 105, 110, 103]
}

/// The encoding token `gzip`.
pub open spec fn gzip_name() -> Seq<u8> {
    seq![103u8, 122, 105, 112]
}

/// The encoding token `deflate`.
pub open spec fn deflate_name() -> Seq<u8> {
    seq![100u8, 101, 102, 108, 97, 116, 101]
}

/// A stream that ends before a line is terminated.
pub open spec fn unterminated() -> ErrorView {
    ErrorView { kind: HttpErrorKind::ParseError, message: "Error parsing message"@, code: 0 }
}

/// A header line without a colon, or text that is not UTF-8.
pub open spec fn malformed() -> ErrorView {
    ErrorView { kind: HttpErrorKind::ParseError, message: "Malformed message"@, code: 0 }
}

/// A first line that starts with neither a method nor a version.
pub open spec fn bad_start_line() -> ErrorView {
    ErrorView { kind: HttpErrorKind::ParseError, message: "Bad Request"@, code: 0 }
}

/// A request that can be answered with status 400.
pub open spec fn bad_request() -> ErrorView {
    ErrorView { kind: HttpErrorKind::RequestError, message: "Bad Request"@, code: 400 }
}

/// A status line without a numeric status code.
pub open spec fn bad_status_line() -> ErrorView {
    ErrorView { kind: HttpErrorKind::ResponseError, message: "Parse Error"@, code: 0 }
}

/// Frames that are neither one frame alone nor a head followed by a body.
pub open spec fn not_a_message() -> ErrorView {
    ErrorView { kind: HttpErrorKind::ResponseError, message: "Not a message"@, code: 0 }
}

/// The length of the first line of `s`, its terminator included, or 0
/// where `s` holds no carriage return directly followed by a line feed.
pub open spec fn line_len(s: Seq<u8>) -> int
    decreases s.len(),
{
    if s.len() < 2 {
        0
    } else if s[0] == 13 && s[1] == 10 {
        2
    } else {
        let r = line_len(s.drop_first());
        if r == 0 {
            0
        } else {
            r + 1
        }
    }
}

/// The parts of `parts` one after the other.
pub open spec fn concat(parts: Seq<Seq<u8>>) -> Seq<u8>
    decreases parts.len(),
{
    if parts.len() == 0 {
        seq![]
    } else {
        parts[0] + concat(parts.drop_first())
    }
}

/// What follows the method on a request line: a URI and a known
/// version. `t` holds the tokens of the whole line.
pub open spec fn request_line(t: Seq<Seq<u8>>) -> Result<(Seq<u8>, Version), ErrorView> {
    if t.len() < 3 {
        Err(bad_request())
    } else if version_of(t[2]) is None {
        Err(unknown_version())
    } else if !valid_utf8(t[1]) {
        Err(malformed())
    } else {
        Ok((t[1], version_of(t[2])->0))
    }
}

/// What follows the version on a status line: a status code of 16 bits,
/// and as the reason all further tokens, one directly after the other.
/// `t` holds the tokens of the whole line.
pub open spec fn status_line(t: Seq<Seq<u8>>) -> Result<(u16, Seq<u8>), ErrorView> {
    if t.len() < 2 || parse_decimal(t[1], 65535) is None {
        Err(bad_status_line())
    } else if !valid_utf8(concat(t.skip(2))) {
        Err(malformed())
    } else {
        Ok((parse_decimal(t[1], 65535)->0 as u16, concat(t.skip(2))))
    }
}

/// What the tokens of a first line say. A line that starts with a method
/// is a request line, one that starts with a version is a status line,
/// and any other line is in error.
pub open spec fn start_line_of(t: Seq<Seq<u8>>) -> Result<StartLine, ErrorView> {
    if t.len() == 0 {
        Err(bad_start_line())
    } else if method_of(t[0]) is Some {
        match request_line(t) {
            Ok((uri, version)) => Ok(
                StartLine::Request { method: method_of(t[0])->0, uri, version },
            ),
            Err(e) => Err(e),
        }
    } else if version_of(t[0]) is Some {
        match status_line(t) {
            Ok((code, reason)) => Ok(
                StartLine::Status { version: version_of(t[0])->0, code, reason },
            ),
            Err(e) => Err(e),
        }
    } else {
        Err(bad_start_line())
    }
}

/// What the first line of a message says, read from its
/// whitespace-separated tokens.
pub open spec fn parse_start_line(line: Seq<u8>) -> Result<StartLine, ErrorView> {
    start_line_of(tokens(line))
}

/// Whether every part of `parts` is valid UTF-8.
pub open spec fn all_utf8(parts: Seq<Seq<u8>>) -> bool {
    forall|i: int| 0 <= i < parts.len() ==> valid_utf8(#[trigger] parts[i])
}

/// The values that the text after a header's colon lists: the text is
/// trimmed and split at each comma, and each part is trimmed.
pub open spec fn header_values(text: Seq<u8>) -> Seq<Seq<u8>> {
    trim_each(split_on(trim(text), 44, seq![]))
}

/// What a header line says: the name is what stands before the first
/// colon, trimmed; the values are listed after it. A line without a colon,
/// or with a name or value that is not UTF-8, says nothing.
pub open spec fn parse_header_line(line: Seq<u8>) -> Option<Header> {
    let c = index_of(line, 58);
    if c >= line.len() {
        None
    } else {
        let name = trim(line.take(c));
        let values = header_values(line.skip(c + 1));
        if valid_utf8(name) && all_utf8(values) {
            Some(Header { name, values })
        } else {
            None
        }
    }
}

/// Reads header lines up to and including the blank line and adds each
/// to `acc`; a name given again replaces what it had.
pub open spec fn parse_headers(input: Seq<u8>, acc: Seq<Header>) -> Parsed<Seq<Header>>
    decreases input.len(),
{
    let n = line_len(input);
    if n <= 0 || n > input.len() {
        Parsed { outcome: Err(unterminated()), rest: seq![] }
    } else if n == 2 {
        Parsed { outcome: Ok(acc), rest: input.skip(2) }
    } else {
        match parse_header_line(input.take(n)) {
            None => Parsed { outcome: Err(malformed()), rest: input.skip(n) },
            Some(h) => parse_headers(input.skip(n), put(acc, h.name, h.values)),
        }
    }
}

/// The head frame made of a first line and headers.
pub open spec fn head_of(start: StartLine, headers: Seq<Header>) -> FrameView {
    match start {
        StartLine::Request { method, uri, version } => FrameView::RequestHead {
            method,
            uri,
            version,
            headers,
        },
        StartLine::Status { version, code, reason } => FrameView::ResponseHead {
            code,
            reason,
            version,
            headers,
        },
    }
}

/// Reads the head of a message: its first line, then its headers.
pub open spec fn parse_head(input: Seq<u8>) -> Parsed<FrameView> {
    let n = line_len(input);
    if n <= 0 || n > input.len() {
        Parsed { outcome: Err(unterminated()), rest: seq![] }
    } else {
        match parse_start_line(input.take(n)) {
            Err(e) => Parsed { outcome: Err(e), rest: input.skip(n) },
            Ok(start) => {
                let hs = parse_headers(input.skip(n), seq![]);
                match hs.outcome {
                    Err(e) => Parsed { outcome: Err(e), rest: hs.rest },
                    Ok(headers) => Parsed { outcome: Ok(head_of(start, headers)), rest: hs.rest },
                }
            },
        }
    }
}

impl FrameView {
    /// Whether the frame is a request head or a response head.
    pub open spec fn is_head(self) -> bool {
        !(self is BodyChunk)
    }

    /// The headers of a head frame; a body has none.
    pub open spec fn headers(self) -> Seq<Header> {
        match self {
            FrameView::RequestHead { headers, .. } => headers,
            FrameView::ResponseHead { headers, .. } => headers,
            FrameView::BodyChunk { .. } => seq![],
        }
    }

    /// The frame with `headers` in place of its own; a body is left as it
    /// is.
    pub open spec fn with_headers(self, headers: Seq<Header>) -> FrameView {
        match self {
            FrameView::RequestHead { method, uri, version, .. } => FrameView::RequestHead {
                method,
                uri,
                version,
                headers,
            },
            FrameView::ResponseHead { code, reason, version, .. } => FrameView::ResponseHead {
                code,
                reason,
                version,
                headers,
            },
            FrameView::BodyChunk { chunk } => FrameView::BodyChunk { chunk },
        }
    }
}

/// Whether every name and value of the headers is valid UTF-8.
pub open spec fn headers_are_utf8(headers: Seq<Header>) -> bool {
    forall|i: int|
        0 <= i < headers.len() ==> valid_utf8((#[trigger] headers[i]).name) && all_utf8(
            headers[i].values,
        )
}

/// Whether every text of the frame is valid UTF-8.
pub open spec fn texts_are_utf8(f: FrameView) -> bool {
    match f {
        FrameView::RequestHead { uri, headers, .. } => valid_utf8(uri) && headers_are_utf8(headers),
        FrameView::ResponseHead { reason, headers, .. } => valid_utf8(reason) && headers_are_utf8(
            headers,
        ),
        FrameView::BodyChunk { .. } => true,
    }
}

/// The first value of the header called `name`.
pub open spec fn first_value(headers: Seq<Header>, name: Seq<u8>) -> Option<Seq<u8>> {
    match lookup(headers, name) {
        Some(values) => if values.len() > 0 {
            Some(values[0])
        } else {
            None
        },
        None => None,
    }
}

/// The body length that the headers declare: the first value of
/// `Content-Length` read as a decimal number of 32 bits, and 0 where the
/// header is absent or is no such number.
pub open spec fn content_length(headers: Seq<Header>) -> nat {
    match first_value(headers, content_length_name()) {
        Some(v) => match parse_decimal(v, 0xffff_ffff) {
            Some(n) => n,
            None => 0,
        },
        None => 0,
    }
}

/// Reads `n` body bytes; a stream that ends before that is a bad request.
pub open spec fn parse_body(input: Seq<u8>, n: nat) -> Parsed<Seq<u8>> {
    if input.len() < n {
        Parsed { outcome: Err(bad_request()), rest: seq![] }
    } else {
        Parsed { outcome: Ok(input.take(n as int)), rest: input.skip(n as int) }
    }
}

/// Reads one message: a head, and then a body of the declared length if
/// that length is not 0.
pub open spec fn parse_message(input: Seq<u8>) -> Parsed<Seq<FrameView>> {
    let h = parse_head(input);
    match h.outcome {
        Err(e) => Parsed { outcome: Err(e), rest: h.rest },
        Ok(head) => {
            let n = content_length(head.headers());
            if n == 0 {
                Parsed { outcome: Ok(seq![head]), rest: h.rest }
            } else {
                let b = parse_body(h.rest, n);
                match b.outcome {
                    Err(e) => Parsed { outcome: Err(e), rest: b.rest },
                    Ok(chunk) => Parsed {
                        outcome: Ok(seq![head, FrameView::BodyChunk { chunk }]),
                        rest: b.rest,
                    },
                }
            }
        },
    }
}

/// What follows the first of several values: each further value after a
/// comma and a space.
pub open spec fn join_rest(values: Seq<Seq<u8>>) -> Seq<u8>
    decreases values.len(),
{
    if values.len() == 0 {
        seq![]
    } else {
        seq![44u8, 32u8] + values[0] + join_rest(values.drop_first())
    }
}

/// The values, separated by a comma and a space.
pub open spec fn join(values: Seq<Seq<u8>>) -> Seq<u8> {
    if values.len() == 0 {
        seq![]
    } else {
        values[0] + join_rest(values.drop_first())
    }
}

/// One header line: name, colon, space, the joined values, terminator.
pub open spec fn header_line(h: Header) -> Seq<u8> {
    h.name + seq![58u8, 32u8] + join(h.values) + crlf()
}

/// The header lines, in order.
pub open spec fn header_lines(hs: Seq<Header>) -> Seq<u8>
    decreases hs.len(),
{
    if hs.len() == 0 {
        seq![]
    } else {
        header_line(hs[0]) + header_lines(hs.drop_first())
    }
}

/// The first line of a head frame; a body has none.
pub open spec fn start_line_bytes(f: FrameView) -> Seq<u8> {
    match f {
        FrameView::RequestHead { method, uri, version, .. } => method.token() + seq![32u8] + uri
            + seq![32u8] + version.token() + crlf(),
        FrameView::ResponseHead { code, reason, version, .. } => version.token() + seq![32u8]
            + decimal(code as nat) + seq![32u8] + reason + crlf(),
        FrameView::BodyChunk { .. } => seq![],
    }
}

/// The bytes of one frame: a head is its first line, its header lines and
/// a blank line; a body is its bytes.
pub open spec fn frame_bytes(f: FrameView) -> Seq<u8> {
    match f {
        FrameView::BodyChunk { chunk } => chunk,
        _ => start_line_bytes(f) + header_lines(f.headers()) + crlf(),
    }
}

/// Whether the frames are a head followed by a body.
pub open spec fn has_body(frames: Seq<FrameView>) -> bool {
    frames.len() == 2 && frames[0].is_head() && frames[1] is BodyChunk
}

/// Whether the frames can be written out: one frame alone, or a head
/// followed by a body.
pub open spec fn is_message(frames: Seq<FrameView>) -> bool {
    frames.len() == 1 || has_body(frames)
}

/// The body as it travels: compressed where the first value of
/// `Content-Encoding` is `gzip` or `deflate`, else as it is.
pub open spec fn payload(headers: Seq<Header>, body: Seq<u8>) -> Seq<u8> {
    let encoding = first_value(headers, content_encoding_name());
    if encoding == Some(gzip_name()) {
        gzip_of(body)
    } else if encoding == Some(deflate_name()) {
        deflate_of(body)
    } else {
        body
    }
}

/// The bytes of a head followed by `data` as its body: the head declares
/// the length of `data` as its `Content-Length`.
pub open spec fn framed(head: FrameView, data: Seq<u8>) -> Seq<u8> {
    frame_bytes(
        head.with_headers(put(head.headers(), content_length_name(), seq![decimal(data.len())])),
    ) + data
}

/// The bytes of a message.
pub open spec fn message_bytes(frames: Seq<FrameView>) -> Seq<u8> {
    if has_body(frames) {
        framed(frames[0], payload(frames[0].headers(), frames[1]->chunk))
    } else {
        frame_bytes(frames[0])
    }
}

/// Whether a carriage return directly followed by a line feed stands at
/// index `j` of `s`.
pub open spec fn line_end_at(s: Seq<u8>, j: int) -> bool {
    0 <= j && j + 1 < s.len() && s[j] == 13 && s[j + 1] == 10
}

/// What [`line_len`] returns: 0 where no line ends, else the length up to
/// and including the first line end.
pub proof fn lemma_line_len(s: Seq<u8>)
    ensures
        line_len(s) == 0 ==> forall|j: int| !line_end_at(s, j),
        line_len(s) != 0 ==> 2 <= line_len(s) <= s.len() && line_end_at(s, line_len(s) - 2)
            && forall|j: int| 0 <= j < line_len(s) - 2 ==> !line_end_at(s, j),
    decreases s.len(),
{
    if s.len() < 2 {
    } else if s[0] == 13 && s[1] == 10 {
    } else {
        let t = s.drop_first();
        lemma_line_len(t);
        assert forall|j: int| line_end_at(s, j) implies line_end_at(t, j - 1) by {
            assert(j != 0);
            assert(t[j - 1] == s[j] && t[j] == s[j + 1]);
        }
        if line_len(t) != 0 {
            let k = line_len(t);
            assert(t[k - 2] == s[k - 1] && t[k - 1] == s[k]);
        }
    }
}

/// The first line ends where a line end stands with none before it.
pub proof fn lemma_line_len_is(s: Seq<u8>, k: int)
    requires
        line_end_at(s, k - 2),
        forall|j: int| 0 <= j < k - 2 ==> !line_end_at(s, j),
    ensures
        line_len(s) == k,
{
    lemma_line_len(s);
    let n = line_len(s);
    if n == 0 {
        assert(!line_end_at(s, k - 2));
    } else if n < k {
        assert(!line_end_at(s, n - 2));
    } else if n > k {
        assert(!line_end_at(s, k - 2));
    }
}

} // verus!
