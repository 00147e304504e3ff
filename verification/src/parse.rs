//! Reading frames from a stream of bytes.

use vstd::prelude::*;
use vstd::slice::slice_subrange;
use vstd::std_specs::iter::IteratorSpec;
use vstd::utf8::*;
use crate::error::{ErrorView, HttpError, HttpErrorKind};
use crate::frame::{lemma_content_length_name, views, HttpFrame, StatusCode};
use crate::headers::{texts_bytes, Header, HeaderMap};
use crate::method::Method;
use crate::text::{
    append, byte_views, copy_range, find_byte, index_of, lemma_split_on_some, read_decimal,
    split_trimmed, split_whitespace, text_of, trim, trimmed,
};
use crate::version::Version;
use crate::wire::{
    all_utf8, concat, content_length, header_values, lemma_line_len, lemma_line_len_is,
    line_end_at, line_len, parse_body, parse_head, parse_header_line, parse_headers,
    parse_message, request_line, status_line, unterminated, FrameView,
};

verus! {

/// What the readers ask of a byte stream: that it hands out the bytes
/// it holds one by one and then ends, and that it has a measure by which
/// reading is known to stop.
pub open spec fn is_stream<I: Iterator<Item = u8>>(data: &I) -> bool {
    data.obeys_prophetic_iter_laws() && (*data).decrease() is Some
}

/// Takes the next byte from the stream.
pub fn next_byte<I: Iterator<Item = u8>>(data: &mut I) -> (r: Option<u8>)
    requires
        is_stream(old(data)),
    ensures
        is_stream(final(data)),
        r is Some ==> decreases_to!((*old(data)).decrease()->0 => (*final(data)).decrease()->0),
        match r {
            Some(b) => (*old(data)).remaining().len() > 0 && b == (*old(data)).remaining()[0]
                && (*final(data)).remaining() == (*old(data)).remaining().drop_first(),
            None => (*old(data)).remaining().len() == 0 && (*final(data)).remaining().len() == 0,
        },
{
    data.next()
}

impl HttpFrame {
    /// Reads one line, its terminator included. The line ends with the
    /// first carriage return that a line feed directly follows; a stream
    /// that ends before that is read to its end and gives an error.
    pub fn line_from_stream<I: Iterator<Item = u8>>(data: &mut I) -> (r: Result<
        Vec<u8>,
        HttpError,
    >)
        requires
            is_stream(old(data)),
        ensures
            is_stream(final(data)),
            r is Ok ==> (*final(data)).decrease()->0 < (*old(data)).decrease()->0,
            ({
                let input = (*old(data)).remaining();
                let after = (*final(data)).remaining();
                match r {
                    Ok(line) => line_len(input) > 0 && line@ == input.take(line_len(input))
                        && after == input.skip(line_len(input)),
                    Err(e) => line_len(input) == 0 && e@ == unterminated() && after.len() == 0,
                }
            }),
    {
        let ghost input = (*data).remaining();
        let mut line: Vec<u8> = Vec::new();
        assert(line@ + (*data).remaining() =~= input);
        loop
            invariant
                is_stream(data),
                input == (*old(data)).remaining(),
                (*data).decrease()->0 <= (*old(data)).decrease()->0,
                line@.len() > 0 ==> (*data).decrease()->0 < (*old(data)).decrease()->0,
                line@ + (*data).remaining() == input,
                forall|j: int| 0 <= j < line@.len() - 1 ==> !line_end_at(line@, j),
            decreases (*data).decrease()->0,
        {
            let ghost before = (*data).remaining();
            let ghost read = line@;
            match next_byte(data) {
                None => {
                    proof {
                        assert(read + before =~= read);
                        assert(line@ =~= input);
                        lemma_line_len(input);
                    }
                    return Err(
                        HttpError::new(HttpErrorKind::ParseError, "Error parsing message", None),
                    );
                },
                Some(b) => {
                    line.push(b);
                    assert(line@ + (*data).remaining() =~= read + before);
                    let n = line.len();
                    if n >= 2 && line[n - 2] == 13 && line[n - 1] == 10 {
                        proof {
                            assert forall|j: int| 0 <= j < n - 2 implies !line_end_at(input, j) by {
                                assert(input[j] == read[j] && input[j + 1] == read[j + 1]);
                                assert(!line_end_at(read, j));
                            }
                            assert(line_end_at(input, n - 2));
                            lemma_line_len_is(input, n as int);
                            assert(line@ =~= input.take(n as int));
                            assert((*data).remaining() =~= input.skip(n as int));
                        }
                        return Ok(line);
                    }
                    assert forall|j: int| 0 <= j < line@.len() - 1 implies !line_end_at(
                        line@,
                        j,
                    ) by {
                        if j < line@.len() - 2 {
                            assert(line@[j] == read[j] && line@[j + 1] == read[j + 1]);
                            assert(!line_end_at(read, j));
                        }
                    }
                },
            }
        }
    }

    /// Reads what follows the method on a request line: the URI and the
    /// version. `tokens` holds the tokens of the whole line.
    pub fn process_request_line(tokens: &Vec<Vec<u8>>) -> (r: Result<(String, Version), HttpError>)
        ensures
            match r {
                Ok((uri, version)) => request_line(byte_views(tokens@)) == Ok::<
                    (Seq<u8>, Version),
                    ErrorView,
                >((encode_utf8(uri@), version)),
                Err(e) => request_line(byte_views(tokens@)) == Err::<(Seq<u8>, Version), ErrorView>(
                    e@,
                ),
            },
    {
        let ghost t = byte_views(tokens@);
        if tokens.len() < 3 {
            return Err(HttpError::new(HttpErrorKind::RequestError, "Bad Request", Some(400)));
        }
        assert(t[1] == tokens@[1]@ && t[2] == tokens@[2]@);
        let version = match Version::from_bytes(tokens[2].as_slice()) {
            Some(v) => v,
            None => {
                return Err(
                    HttpError::new(HttpErrorKind::ParseError, "Error parsing version", None),
                );
            },
        };
        let copy = copy_range(tokens[1].as_slice(), 0, tokens[1].len());
        assert(copy@ =~= t[1]);
        match text_of(copy) {
            Some(uri) => Ok((uri, version)),
            None => Err(HttpError::new(HttpErrorKind::ParseError, "Malformed message", None)),
        }
    }

    /// Reads what follows the version on a status line: the status code
    /// and the reason. `tokens` holds the tokens of the whole line.
    pub fn process_status_line(tokens: &Vec<Vec<u8>>) -> (r: Result<StatusCode, HttpError>)
        ensures
            match r {
                Ok((code, reason)) => status_line(byte_views(tokens@)) == Ok::<
                    (u16, Seq<u8>),
                    ErrorView,
                >((code, encode_utf8(reason@))),
                Err(e) => status_line(byte_views(tokens@)) == Err::<(u16, Seq<u8>), ErrorView>(e@),
            },
    {
        let ghost t = byte_views(tokens@);
        if tokens.len() < 2 {
            return Err(HttpError::new(HttpErrorKind::ResponseError, "Parse Error", None));
        }
        assert(t[1] == tokens@[1]@);
        let code: u16 = match read_decimal(tokens[1].as_slice(), 65535) {
            Some(c) => c as u16,
            None => {
                return Err(HttpError::new(HttpErrorKind::ResponseError, "Parse Error", None));
            },
        };
        let mut words: Vec<u8> = Vec::new();
        let mut i: usize = 2;
        assert(words@ + concat(t.skip(2)) =~= concat(t.skip(2)));
        while i < tokens.len()
            invariant
                2 <= i <= tokens@.len(),
                t == byte_views(tokens@),
                words@ + concat(t.skip(i as int)) == concat(t.skip(2)),
            decreases tokens@.len() - i,
        {
            let ghost before = words@;
            append(&mut words, tokens[i].as_slice());
            proof {
                assert(t.skip(i as int).drop_first() =~= t.skip(i + 1));
                assert(t.skip(i as int)[0] == tokens@[i as int]@);
                assert(words@ + concat(t.skip(i + 1)) =~= before + concat(t.skip(i as int)));
            }
            i += 1;
        }
        assert(concat(t.skip(i as int)) =~= Seq::<u8>::empty());
        assert(words@ + Seq::<u8>::empty() =~= words@);
        match text_of(words) {
            Some(reason) => Ok((code, reason)),
            None => Err(HttpError::new(HttpErrorKind::ParseError, "Malformed message", None)),
        }
    }

    /// Reads one header line into a name and its values.
    pub fn header_from_line(line: &[u8]) -> (r: Option<(String, Vec<String>)>)
        ensures
            match r {
                Some((name, values)) => parse_header_line(line@) == Some(
                    Header { name: encode_utf8(name@), values: texts_bytes(values@) },
                ) && values@.len() > 0,
                None => parse_header_line(line@) is None,
            },
    {
        let c = find_byte(line, 58);
        if c >= line.len() {
            return None;
        }
        let name_bytes = trimmed(slice_subrange(line, 0, c));
        let text = trimmed(slice_subrange(line, c + 1, line.len()));
        let parts = split_trimmed(text.as_slice(), 44);
        let ghost wanted = header_values(line@.skip(c + 1));
        assert(line@.subrange(0, c as int) =~= line@.take(c as int));
        assert(line@.subrange(c + 1, line@.len() as int) =~= line@.skip(c + 1));
        assert(byte_views(parts@) == wanted);
        let name = match text_of(name_bytes) {
            Some(n) => n,
            None => {
                return None;
            },
        };
        let mut values: Vec<String> = Vec::new();
        let mut i: usize = 0;
        while i < parts.len()
            invariant
                i <= parts@.len(),
                values@.len() == i,
                c == index_of(line@, 58),
                c < line@.len(),
                wanted == header_values(line@.skip(c + 1)),
                encode_utf8(name@) == trim(line@.take(c as int)),
                valid_utf8(trim(line@.take(c as int))),
                byte_views(parts@) == wanted,
                forall|j: int| 0 <= j < i ==> valid_utf8(#[trigger] wanted[j]),
                forall|j: int| 0 <= j < i ==> encode_utf8((#[trigger] values@[j])@) == wanted[j],
            decreases parts@.len() - i,
        {
            let copy = copy_range(parts[i].as_slice(), 0, parts[i].len());
            assert(copy@ =~= parts@[i as int]@);
            assert(wanted[i as int] == parts@[i as int]@);
            match text_of(copy) {
                Some(v) => {
                    values.push(v);
                },
                None => {
                    assert(!all_utf8(wanted));
                    return None;
                },
            }
            i += 1;
        }
        assert(texts_bytes(values@) =~= wanted);
        proof {
            lemma_split_on_some(trim(line@.skip(c + 1)), 44, seq![]);
        }
        Some((name, values))
    }

    /// Reads header lines up to and including the blank line. A name
    /// given again replaces what it had.
    pub fn process_msg_headers<I: Iterator<Item = u8>>(data: &mut I) -> (r: Result<
        HeaderMap,
        HttpError,
    >)
        requires
            is_stream(old(data)),
        ensures
            is_stream(final(data)),
            ({
                let p = parse_headers((*old(data)).remaining(), seq![]);
                &&& (*final(data)).remaining() == p.rest
                &&& match r {
                    Ok(headers) => p.outcome == Ok::<Seq<Header>, ErrorView>(headers@),
                    Err(e) => p.outcome == Err::<Seq<Header>, ErrorView>(e@),
                }
            }),
    {
        let ghost input = (*data).remaining();
        let mut headers = HeaderMap::new();
        loop
            invariant
                is_stream(data),
                input == (*old(data)).remaining(),
                parse_headers(input, seq![]) == parse_headers((*data).remaining(), headers@),
            decreases (*data).decrease()->0,
        {
            let ghost here = (*data).remaining();
            proof {
                lemma_line_len(here);
            }
            match HttpFrame::line_from_stream(data) {
                Err(e) => {
                    assert((*data).remaining() =~= Seq::<u8>::empty());
                    return Err(e);
                },
                Ok(line) => {
                    if line.len() == 2 {
                        return Ok(headers);
                    }
                    match HttpFrame::header_from_line(line.as_slice()) {
                        None => {
                            return Err(
                                HttpError::new(
                                    HttpErrorKind::ParseError,
                                    "Malformed message",
                                    None,
                                ),
                            );
                        },
                        Some((name, values)) => {
                            headers.insert(name, values);
                        },
                    }
                },
            }
        }
    }

    /// Reads the head of a message: its first line, then its headers.
    pub fn message_frame_from_stream<I: Iterator<Item = u8>>(data: &mut I) -> (r: Result<
        HttpFrame,
        HttpError,
    >)
        requires
            is_stream(old(data)),
        ensures
            is_stream(final(data)),
            ({
                let p = parse_head((*old(data)).remaining());
                &&& (*final(data)).remaining() == p.rest
                &&& match r {
                    Ok(head) => p.outcome == Ok::<FrameView, ErrorView>(head@),
                    Err(e) => p.outcome == Err::<FrameView, ErrorView>(e@),
                }
            }),
    {
        proof {
            lemma_line_len((*data).remaining());
        }
        let line = match HttpFrame::line_from_stream(data) {
            Ok(line) => line,
            Err(e) => {
                assert((*data).remaining() =~= Seq::<u8>::empty());
                return Err(e);
            },
        };
        let tokens = split_whitespace(line.as_slice());
        let ghost t = byte_views(tokens@);
        if tokens.len() == 0 {
            return Err(HttpError::new(HttpErrorKind::ParseError, "Bad Request", None));
        }
        assert(t[0] == tokens@[0]@);
        match Method::from_bytes(tokens[0].as_slice()) {
            Some(method) => {
                let (uri, version) = match HttpFrame::process_request_line(&tokens) {
                    Ok(pair) => pair,
                    Err(e) => {
                        return Err(e);
                    },
                };
                match HttpFrame::process_msg_headers(data) {
                    Ok(headers) => Ok(HttpFrame::RequestHead { method, uri, version, headers }),
                    Err(e) => Err(e),
                }
            },
            None => match Version::from_bytes(tokens[0].as_slice()) {
                Some(version) => {
                    let status = match HttpFrame::process_status_line(&tokens) {
                        Ok(status) => status,
                        Err(e) => {
                            return Err(e);
                        },
                    };
                    match HttpFrame::process_msg_headers(data) {
                        Ok(headers) => Ok(HttpFrame::ResponseHead { status, version, headers }),
                        Err(e) => Err(e),
                    }
                },
                None => Err(HttpError::new(HttpErrorKind::ParseError, "Bad Request", None)),
            },
        }
    }

    /// Reads a body of exactly `length` bytes. A stream that ends before
    /// that is read to its end and gives a bad request.
    pub fn body_frame_from_stream<I: Iterator<Item = u8>>(length: u32, data: &mut I) -> (r: Result<
        HttpFrame,
        HttpError,
    >)
        requires
            is_stream(old(data)),
        ensures
            is_stream(final(data)),
            ({
                let p = parse_body((*old(data)).remaining(), length as nat);
                &&& (*final(data)).remaining() == p.rest
                &&& match r {
                    Ok(body) => body is BodyChunk && p.outcome == Ok::<Seq<u8>, ErrorView>(
                        body@->chunk,
                    ),
                    Err(e) => p.outcome == Err::<Seq<u8>, ErrorView>(e@),
                }
            }),
    {
        let ghost input = (*data).remaining();
        let mut chunk: Vec<u8> = Vec::new();
        let mut i: u32 = 0;
        assert(chunk@ + (*data).remaining() =~= input);
        while i < length
            invariant
                is_stream(data),
                input == (*old(data)).remaining(),
                i <= length,
                chunk@.len() == i,
                chunk@ + (*data).remaining() == input,
            decreases length - i,
        {
            let ghost before = (*data).remaining();
            let ghost read = chunk@;
            match next_byte(data) {
                Some(byte) => {
                    chunk.push(byte);
                    assert(chunk@ + (*data).remaining() =~= read + before);
                },
                None => {
                    assert(read + before =~= read);
                    assert((*data).remaining() =~= Seq::<u8>::empty());
                    return Err(
                        HttpError::new(HttpErrorKind::RequestError, "Bad Request", Some(400)),
                    );
                },
            }
            i += 1;
        }
        assert(chunk@ =~= input.take(length as int));
        assert((*data).remaining() =~= input.skip(length as int));
        Ok(HttpFrame::BodyChunk { chunk })
    }

    /// The body length that the headers declare.
    pub fn declared_length(headers: &HeaderMap) -> (n: u32)
        ensures
            n == content_length(headers@),
    {
        proof {
            lemma_content_length_name();
        }
        match headers.get("Content-Length") {
            Some(values) => {
                assert(texts_bytes(values@)[0] == encode_utf8(values@[0]@));
                match read_decimal(values[0].as_str().as_bytes(), 0xffff_ffff) {
                    Some(n) => n,
                    None => 0,
                }
            },
            None => 0,
        }
    }

    /// Reads one message from bytes that are all at hand. What follows
    /// the message in `bytes` is not looked at.
    pub fn from_bytes(bytes: Vec<u8>) -> (r: Result<Vec<HttpFrame>, HttpError>)
        ensures
            match r {
                Ok(frames) => parse_message(bytes@).outcome == Ok::<Seq<FrameView>, ErrorView>(
                    views(frames@),
                ),
                Err(e) => parse_message(bytes@).outcome == Err::<Seq<FrameView>, ErrorView>(e@),
            },
    {
        let mut stream = bytes.into_iter();
        HttpFrame::from_stream(&mut stream)
    }

    /// Reads one message: a head, and then a body of the length that the
    /// head declares if that length is not 0.
    pub fn from_stream<I: Iterator<Item = u8>>(data: &mut I) -> (r: Result<
        Vec<HttpFrame>,
        HttpError,
    >)
        requires
            is_stream(old(data)),
        ensures
            is_stream(final(data)),
            ({
                let p = parse_message((*old(data)).remaining());
                &&& (*final(data)).remaining() == p.rest
                &&& match r {
                    Ok(frames) => p.outcome == Ok::<Seq<FrameView>, ErrorView>(views(frames@)),
                    Err(e) => p.outcome == Err::<Seq<FrameView>, ErrorView>(e@),
                }
            }),
    {
        let mut frames: Vec<HttpFrame> = Vec::new();
        let frame = match HttpFrame::message_frame_from_stream(data) {
            Ok(frame) => frame,
            Err(e) => {
                return Err(e);
            },
        };
        let length: u32 = match &frame {
            HttpFrame::RequestHead { headers, .. } => HttpFrame::declared_length(headers),
            HttpFrame::ResponseHead { headers, .. } => HttpFrame::declared_length(headers),
            HttpFrame::BodyChunk { .. } => 0,
        };
        let ghost head = frame@;
        frames.push(frame);
        if length > 0 {
            match HttpFrame::body_frame_from_stream(length, data) {
                Ok(body) => {
                    frames.push(body);
                    assert(views(frames@) =~= seq![head, body@]);
                },
                Err(e) => {
                    return Err(e);
                },
            }
        } else {
            assert(views(frames@) =~= seq![head]);
        }
        Ok(frames)
    }
}

} // verus!
