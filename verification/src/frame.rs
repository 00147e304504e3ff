//! Frames, and writing them out.

use vstd::prelude::*;
use vstd::utf8::*;
use crate::compress::{deflate, gzip};
use crate::error::{HttpError, HttpErrorKind};
use crate::headers::{put, texts_bytes, HeaderMap};
use crate::method::Method;
use crate::text::{
    append, bytes_eq, copy_range, decimal, is_digit, lemma_ascii_is_utf8, lemma_ascii_text,
    lemma_decimal_reads_back, push_decimal, text_of,
};
use crate::version::Version;
use crate::wire::{
    accept_encoding_name, content_encoding_name, content_length_name, deflate_name, frame_bytes,
    framed, gzip_name, header_line, header_lines, is_message, join, join_rest, message_bytes,
    not_a_message, payload, start_line_bytes, texts_are_utf8, FrameView,
};

verus! {

/// A status code with its reason phrase.
pub type StatusCode = (u16, String);

/// One structural unit of a message: the head of a request, the head of
/// a response, or a body.
#[derive(Debug)]
pub enum HttpFrame {
    RequestHead { method: Method, uri: String, version: Version, headers: HeaderMap },
    ResponseHead { status: StatusCode, version: Version, headers: HeaderMap },
    BodyChunk { chunk: Vec<u8> },
}

impl View for HttpFrame {
    type V = FrameView;

    open spec fn view(&self) -> FrameView {
        match *self {
            HttpFrame::RequestHead { method, uri, version, headers } => FrameView::RequestHead {
                method,
                uri: encode_utf8(uri@),
                version,
                headers: headers@,
            },
            HttpFrame::ResponseHead { status, version, headers } => FrameView::ResponseHead {
                code: status.0,
                reason: encode_utf8(status.1@),
                version,
                headers: headers@,
            },
            HttpFrame::BodyChunk { chunk } => FrameView::BodyChunk { chunk: chunk@ },
        }
    }
}

impl Clone for HttpFrame {
    fn clone(&self) -> (f: HttpFrame)
        ensures
            f@ == self@,
    {
        match self {
            HttpFrame::RequestHead { method, uri, version, headers } => HttpFrame::RequestHead {
                method: *method,
                uri: uri.clone(),
                version: *version,
                headers: headers.clone(),
            },
            HttpFrame::ResponseHead { status, version, headers } => HttpFrame::ResponseHead {
                status: (status.0, status.1.clone()),
                version: *version,
                headers: headers.clone(),
            },
            HttpFrame::BodyChunk { chunk } => {
                let copy = copy_range(chunk.as_slice(), 0, chunk.len());
                assert(copy@ =~= chunk@);
                HttpFrame::BodyChunk { chunk: copy }
            },
        }
    }
}

/// The frames as plain values.
pub open spec fn views(frames: Seq<HttpFrame>) -> Seq<FrameView> {
    Seq::new(frames.len(), |i: int| frames[i]@)
}

/// The text `Content-Length` has the bytes of [`content_length_name`].
pub proof fn lemma_content_length_name()
    ensures
        encode_utf8("Content-Length"@) == content_length_name(),
{
    reveal_strlit("Content-Length");
    lemma_ascii_text("Content-Length"@, content_length_name());
}

/// The text `Content-Encoding` has the bytes of [`content_encoding_name`].
pub proof fn lemma_content_encoding_name()
    ensures
        encode_utf8("Content-Encoding"@) == content_encoding_name(),
{
    reveal_strlit("Content-Encoding");
    lemma_ascii_text("Content-Encoding"@, content_encoding_name());
}

/// The text `Accept-Encoding` has the bytes of [`accept_encoding_name`].
pub proof fn lemma_accept_encoding_name()
    ensures
        encode_utf8("Accept-Encoding"@) == accept_encoding_name(),
{
    reveal_strlit("Accept-Encoding");
    lemma_ascii_text("Accept-Encoding"@, accept_encoding_name());
}

/// The texts `gzip` and `deflate` have the bytes of [`gzip_name`] and
/// [`deflate_name`].
pub proof fn lemma_encoding_names()
    ensures
        encode_utf8("gzip"@) == gzip_name(),
        encode_utf8("deflate"@) == deflate_name(),
{
    reveal_strlit("gzip");
    reveal_strlit("deflate");
    lemma_ascii_text("gzip"@, gzip_name());
    lemma_ascii_text("deflate"@, deflate_name());
}

/// Appends the values, separated by a comma and a space.
fn push_values(out: &mut Vec<u8>, values: &Vec<String>)
    ensures
        final(out)@ == old(out)@ + join(texts_bytes(values@)),
{
    let ghost vs = texts_bytes(values@);
    if values.len() == 0 {
        assert(old(out)@ + join(vs) =~= old(out)@);
        return ;
    }
    append(out, values[0].as_str().as_bytes());
    let mut i: usize = 1;
    assert(vs.skip(1) =~= vs.drop_first());
    assert(out@ + join_rest(vs.skip(1)) =~= old(out)@ + join(vs));
    while i < values.len()
        invariant
            1 <= i <= values@.len(),
            vs == texts_bytes(values@),
            out@ + join_rest(vs.skip(i as int)) == old(out)@ + join(vs),
        decreases values@.len() - i,
    {
        let ghost before = out@;
        out.push(44);
        out.push(32);
        append(out, values[i].as_str().as_bytes());
        proof {
            assert(vs.skip(i as int).drop_first() =~= vs.skip(i + 1));
            assert(vs.skip(i as int)[0] == vs[i as int]);
            assert(out@ + join_rest(vs.skip(i + 1)) =~= before + join_rest(vs.skip(i as int)));
        }
        i += 1;
    }
    assert(join_rest(vs.skip(i as int)) =~= Seq::<u8>::empty());
    assert(out@ + Seq::<u8>::empty() =~= out@);
}

/// Appends one line for each header.
fn push_headers(out: &mut Vec<u8>, headers: &HeaderMap)
    ensures
        final(out)@ == old(out)@ + header_lines(headers@),
{
    let ghost hs = headers@;
    let n = headers.len();
    let mut i: usize = 0;
    assert(hs.skip(0) =~= hs);
    while i < n
        invariant
            i <= n,
            n == hs.len(),
            hs == headers@,
            out@ + header_lines(hs.skip(i as int)) == old(out)@ + header_lines(hs),
        decreases n - i,
    {
        let ghost before = out@;
        append(out, headers.name_at(i).as_bytes());
        out.push(58);
        out.push(32);
        push_values(out, headers.values_at(i));
        out.push(13);
        out.push(10);
        proof {
            assert(hs.skip(i as int).drop_first() =~= hs.skip(i + 1));
            assert(hs.skip(i as int)[0] == hs[i as int]);
            assert(out@ =~= before + header_line(hs[i as int]));
            assert(out@ + header_lines(hs.skip(i + 1)) =~= before + header_lines(
                hs.skip(i as int),
            ));
        }
        i += 1;
    }
    assert(header_lines(hs.skip(i as int)) =~= Seq::<u8>::empty());
    assert(out@ + Seq::<u8>::empty() =~= out@);
}

impl HttpFrame {
    /// The texts of a frame are valid UTF-8, so that a frame is plain as
    /// soon as its texts have the shape of plain texts.
    pub proof fn lemma_texts_are_utf8(self)
        ensures
            texts_are_utf8(self@),
    {
        match self {
            HttpFrame::RequestHead { uri, headers, .. } => {
                encode_utf8_valid_utf8(uri@);
                headers.lemma_texts_are_utf8();
            },
            HttpFrame::ResponseHead { status, headers, .. } => {
                encode_utf8_valid_utf8(status.1@);
                headers.lemma_texts_are_utf8();
            },
            HttpFrame::BodyChunk { .. } => {},
        }
    }

    /// The URI of a request head.
    pub fn get_uri(&self) -> (uri: String)
        requires
            self is RequestHead,
        ensures
            encode_utf8(uri@) == self@->uri,
    {
        match self {
            HttpFrame::RequestHead { uri, .. } => uri.clone(),
            _ => String::new(),
        }
    }

    /// The method of a request head.
    pub fn get_method(&self) -> (method: Method)
        requires
            self is RequestHead,
        ensures
            method == self@->method,
    {
        match self {
            HttpFrame::RequestHead { method, .. } => *method,
            _ => Method::GET,
        }
    }

    /// The bytes of the frame: a head is written as its first line, one
    /// line for each header and a blank line; a body as its bytes.
    pub fn to_bytes(&self) -> (data: Vec<u8>)
        ensures
            data@ == frame_bytes(self@),
    {
        let mut data: Vec<u8> = Vec::new();
        match self {
            HttpFrame::RequestHead { method, uri, version, headers } => {
                append(&mut data, Method::to_string(method).as_str().as_bytes());
                data.push(32);
                append(&mut data, uri.as_str().as_bytes());
                data.push(32);
                append(&mut data, Version::to_str(*version).as_str().as_bytes());
                data.push(13);
                data.push(10);
                assert(data@ =~= start_line_bytes(self@));
                push_headers(&mut data, headers);
                data.push(13);
                data.push(10);
                assert(data@ =~= frame_bytes(self@));
            },
            HttpFrame::ResponseHead { status, version, headers } => {
                append(&mut data, Version::to_str(*version).as_str().as_bytes());
                data.push(32);
                push_decimal(&mut data, status.0 as u64);
                data.push(32);
                append(&mut data, status.1.as_str().as_bytes());
                data.push(13);
                data.push(10);
                assert(data@ =~= start_line_bytes(self@));
                push_headers(&mut data, headers);
                data.push(13);
                data.push(10);
                assert(data@ =~= frame_bytes(self@));
            },
            HttpFrame::BodyChunk { chunk } => {
                append(&mut data, chunk.as_slice());
                assert(data@ =~= chunk@);
            },
        }
        data
    }

    /// The bytes of one frame; this never fails.
    pub fn frame_to_stream(message: HttpFrame) -> (r: Result<Vec<u8>, HttpError>)
        ensures
            r matches Ok(data) && data@ == frame_bytes(message@),
    {
        Ok(message.to_bytes())
    }

    /// The frame with the header `name` set to `values`; a body is
    /// returned as it is.
    pub fn with_header(self, name: String, values: Vec<String>) -> (f: HttpFrame)
        requires
            values@.len() > 0,
        ensures
            f@ == self@.with_headers(
                put(self@.headers(), encode_utf8(name@), texts_bytes(values@)),
            ),
    {
        match self {
            HttpFrame::RequestHead { method, uri, version, headers } => {
                let mut headers = headers;
                headers.insert(name, values);
                HttpFrame::RequestHead { method, uri, version, headers }
            },
            HttpFrame::ResponseHead { status, version, headers } => {
                let mut headers = headers;
                headers.insert(name, values);
                HttpFrame::ResponseHead { status, version, headers }
            },
            HttpFrame::BodyChunk { chunk } => HttpFrame::BodyChunk { chunk },
        }
    }

    /// The frame with `Content-Length` set to `length`; a body is returned
    /// as it is.
    pub fn with_content_length(self, length: usize) -> (f: HttpFrame)
        ensures
            f@ == self@.with_headers(
                put(self@.headers(), content_length_name(), seq![decimal(length as nat)]),
            ),
    {
        proof {
            lemma_content_length_name();
        }
        let mut values: Vec<String> = Vec::new();
        values.push(decimal_text(length));
        assert(texts_bytes(values@) =~= seq![decimal(length as nat)]);
        self.with_header("Content-Length".to_owned(), values)
    }

    /// The bytes of `head` followed by `data` as its body, with the length
    /// of `data` declared as the head's `Content-Length`.
    pub fn frame_message(head: HttpFrame, data: &[u8]) -> (out: Vec<u8>)
        ensures
            out@ == framed(head@, data@),
    {
        let head = head.with_content_length(data.len());
        let mut out = head.to_bytes();
        append(&mut out, data);
        out
    }

    /// The body as it travels under the given headers: compressed where
    /// the first value of `Content-Encoding` is `gzip` or `deflate`.
    pub fn encode_body(headers: &HeaderMap, body: Vec<u8>) -> (data: Vec<u8>)
        ensures
            data@ == payload(headers@, body@),
    {
        proof {
            lemma_content_encoding_name();
            lemma_encoding_names();
        }
        match headers.get("Content-Encoding") {
            Some(values) => {
                let encoding = values[0].as_str().as_bytes();
                assert(encoding@ == texts_bytes(values@)[0]);
                if bytes_eq(encoding, "gzip".as_bytes()) {
                    gzip(body.as_slice())
                } else if bytes_eq(encoding, "deflate".as_bytes()) {
                    deflate(body.as_slice())
                } else {
                    body
                }
            },
            None => body,
        }
    }

    /// The bytes of a message. One frame alone is written as it is. Of a
    /// head followed by a body, the body is compressed as the head's
    /// `Content-Encoding` says, the head declares the length of what
    /// results as its `Content-Length`, and the body follows the head.
    /// Any other list of frames is not a message.
    pub fn to_stream(frames: Vec<HttpFrame>) -> (r: Result<Vec<u8>, HttpError>)
        ensures
            match r {
                Ok(data) => is_message(views(frames@)) && data@ == message_bytes(views(frames@)),
                Err(e) => !is_message(views(frames@)) && e@ == not_a_message(),
            },
    {
        let mut frames = frames;
        let ghost all = views(frames@);
        if frames.len() == 1 {
            let only = frames.pop().unwrap();
            assert(all[0] == only@);
            return Ok(only.to_bytes());
        }
        if frames.len() == 2 {
            let second = frames.pop().unwrap();
            let first = frames.pop().unwrap();
            assert(all[0] == first@ && all[1] == second@);
            match second {
                HttpFrame::BodyChunk { chunk } => {
                    let data = match &first {
                        HttpFrame::RequestHead { headers, .. } => HttpFrame::encode_body(
                            headers,
                            chunk,
                        ),
                        HttpFrame::ResponseHead { headers, .. } => HttpFrame::encode_body(
                            headers,
                            chunk,
                        ),
                        HttpFrame::BodyChunk { .. } => {
                            return Err(
                                HttpError::new(HttpErrorKind::ResponseError, "Not a message", None),
                            );
                        },
                    };
                    return Ok(HttpFrame::frame_message(first, data.as_slice()));
                },
                _ => {},
            }
        }
        Err(HttpError::new(HttpErrorKind::ResponseError, "Not a message", None))
    }
}

/// The decimal digits of `n` as a string.
fn decimal_text(n: usize) -> (s: String)
    ensures
        encode_utf8(s@) == decimal(n as nat),
{
    let mut digits: Vec<u8> = Vec::new();
    push_decimal(&mut digits, n as u64);
    proof {
        lemma_decimal_reads_back(n as nat, n as nat);
        assert(digits@ =~= decimal(n as nat));
        assert forall|i: int| 0 <= i < digits@.len() implies (#[trigger] digits@[i]) < 128 by {
            assert(is_digit(digits@[i]));
        }
        lemma_ascii_is_utf8(digits@);
    }
    text_of(digits).unwrap()
}

} // verus!
