//! What a server sends over a connection: the answer to the request that
//! was read from it.

use vstd::prelude::*;
use vstd::utf8::*;
use vstd::std_specs::iter::IteratorSpec;
use vstd::string::StringSliceAdditionalSpecFns;
use crate::error::{ErrorView, HttpError, HttpErrorKind};
use crate::frame::{
    lemma_accept_encoding_name, lemma_content_encoding_name, lemma_encoding_names, views,
    HttpFrame,
};
use crate::headers::{lookup, put, texts_bytes};
use crate::parse::is_stream;
use crate::router::{first_match, HttpServer, RouteView};
use crate::text::{append, bytes_eq, decimal, push_decimal};
use crate::version::Version;
use crate::wire::{
    accept_encoding_name, content_encoding_name, crlf, deflate_name, gzip_name, has_body,
    is_message, message_bytes, parse_message, FrameView,
};

verus! {

/// A request that names no compression that the server offers.
pub open spec fn no_encoding() -> ErrorView {
    ErrorView {
        kind: HttpErrorKind::RequestError,
        message: "No matching compression algorithm"@,
        code: 0,
    }
}

/// The first of the values that is `gzip` or `deflate`.
pub open spec fn negotiated(values: Seq<Seq<u8>>) -> Option<Seq<u8>>
    decreases values.len(),
{
    if values.len() == 0 {
        None
    } else if values[0] == gzip_name() || values[0] == deflate_name() {
        Some(values[0])
    } else {
        negotiated(values.drop_first())
    }
}

/// The compression that a request accepts and the server offers: the
/// first value of its `Accept-Encoding` header that is `gzip` or
/// `deflate`. A frame that is no request head accepts none.
pub open spec fn accepted_encoding(request: FrameView) -> Option<Seq<u8>> {
    match request {
        FrameView::RequestHead { headers, .. } => match lookup(headers, accept_encoding_name()) {
            Some(values) => negotiated(values),
            None => None,
        },
        _ => None,
    }
}

/// The response with the chosen compression declared: a head followed by
/// a body gets `encoding` as its `Content-Encoding`; a response without a
/// body, or one for which no compression was chosen, is left as it is.
pub open spec fn stamped(response: Seq<FrameView>, encoding: Option<Seq<u8>>) -> Seq<FrameView> {
    if has_body(response) && encoding is Some {
        response.update(
            0,
            response[0].with_headers(
                put(response[0].headers(), content_encoding_name(), seq![encoding->0]),
            ),
        )
    } else {
        response
    }
}

/// A response of a status line alone: `HTTP/1.1`, the code, the reason
/// and a blank line.
pub open spec fn status_reply(code: nat, reason: Seq<u8>) -> Seq<u8> {
    Version::Http1_1.token() + seq![32u8] + decimal(code) + seq![32u8] + reason + crlf() + crlf()
}

/// The reply to a request that no route serves.
pub open spec fn no_route_reply() -> Seq<u8> {
    status_reply(400, encode_utf8("Bad Request"@))
}

/// The reply to a request whose handler failed.
pub open spec fn handler_failed_reply() -> Seq<u8> {
    status_reply(500, encode_utf8("Internal Server Error"@))
}

/// What a handler returned, as plain values.
pub open spec fn outcome_view(outcome: Result<Vec<HttpFrame>, HttpError>) -> Result<
    Seq<FrameView>,
    ErrorView,
> {
    match outcome {
        Ok(frames) => Ok(views(frames@)),
        Err(e) => Err(e@),
    }
}

/// The bytes that answer a request, given the compression it accepts and
/// what its handler returned. A response is written out with the
/// compression declared; an error, or frames that are no message, give
/// status 500.
pub open spec fn response_bytes(
    encoding: Option<Seq<u8>>,
    outcome: Result<Seq<FrameView>, ErrorView>,
) -> Seq<u8> {
    match outcome {
        Ok(frames) => if is_message(frames) {
            message_bytes(stamped(frames, encoding))
        } else {
            handler_failed_reply()
        },
        Err(_) => handler_failed_reply(),
    }
}

/// The bytes that answer a request that could not be read: an error of
/// the request class is answered with its code and message, any other is
/// not answered.
pub open spec fn error_reply(e: ErrorView) -> Option<Seq<u8>> {
    if e.kind == HttpErrorKind::RequestError {
        Some(status_reply(e.code as nat, encode_utf8(e.message)))
    } else {
        None
    }
}

/// The route that serves the request: the first in the table whose
/// method is the request's and whose prefix starts its URI. Frames that do
/// not start with a request head are served by none.
pub open spec fn route_of(routes: Seq<RouteView>, request: Seq<FrameView>) -> Option<int> {
    if request.len() > 0 && request[0] is RequestHead && first_match(
        routes,
        request[0]->method,
        request[0]->uri,
    ) < routes.len() {
        Some(first_match(routes, request[0]->method, request[0]->uri))
    } else {
        None
    }
}

/// The text as bytes, where there is one.
pub open spec fn text_view(text: Option<String>) -> Option<Seq<u8>> {
    match text {
        Some(s) => Some(encode_utf8(s@)),
        None => None,
    }
}

/// Writes a response of a status line alone.
pub fn status_reply_bytes(code: u32, reason: &str) -> (out: Vec<u8>)
    ensures
        out@ == status_reply(code as nat, reason.spec_bytes()),
{
    let mut out: Vec<u8> = Vec::new();
    append(&mut out, Version::to_str(Version::Http1_1).as_str().as_bytes());
    out.push(32);
    push_decimal(&mut out, code as u64);
    out.push(32);
    append(&mut out, reason.as_bytes());
    out.push(13);
    out.push(10);
    out.push(13);
    out.push(10);
    assert(out@ =~= status_reply(code as nat, reason.spec_bytes()));
    out
}

/// The bytes that answer a request that could not be read, where it is
/// answered at all.
pub fn error_response(e: &HttpError) -> (r: Option<Vec<u8>>)
    ensures
        match r {
            Some(out) => error_reply(e@) == Some(out@),
            None => error_reply(e@) is None,
        },
{
    match e.kind() {
        HttpErrorKind::RequestError => Some(status_reply_bytes(e.code(), e.message())),
        _ => None,
    }
}

/// Chooses the compression for the response to a request: the first
/// value of `Accept-Encoding` that is `gzip` or `deflate`.
pub fn process_compression_headers(request: &HttpFrame) -> (r: Result<String, HttpError>)
    ensures
        match r {
            Ok(encoding) => accepted_encoding(request@) == Some(encode_utf8(encoding@)),
            Err(e) => accepted_encoding(request@) is None && e@ == no_encoding(),
        },
{
    proof {
        lemma_accept_encoding_name();
        lemma_encoding_names();
    }
    match request {
        HttpFrame::RequestHead { headers, .. } => {
            match headers.get("Accept-Encoding") {
                Some(values) => {
                    let ghost vs = texts_bytes(values@);
                    let mut i: usize = 0;
                    assert(vs.skip(0) =~= vs);
                    while i < values.len()
                        invariant
                            i <= values@.len(),
                            vs == texts_bytes(values@),
                            accepted_encoding(request@) == negotiated(vs),
                            negotiated(vs) == negotiated(vs.skip(i as int)),
                            encode_utf8("gzip"@) == gzip_name(),
                            encode_utf8("deflate"@) == deflate_name(),
                        decreases values@.len() - i,
                    {
                        let encoding = values[i].as_str().as_bytes();
                        assert(vs.skip(i as int)[0] == encoding@);
                        assert(vs.skip(i as int).drop_first() =~= vs.skip(i + 1));
                        if bytes_eq(encoding, "gzip".as_bytes()) || bytes_eq(
                            encoding,
                            "deflate".as_bytes(),
                        ) {
                            return Ok(values[i].clone());
                        }
                        i += 1;
                    }
                },
                None => {},
            }
        },
        _ => {},
    }
    Err(HttpError::new(HttpErrorKind::RequestError, "No matching compression algorithm", None))
}

/// Declares the chosen compression on a response that has a body.
pub fn stamp(response: Vec<HttpFrame>, encoding: Option<String>) -> (out: Vec<HttpFrame>)
    ensures
        views(out@) == stamped(views(response@), text_view(encoding)),
{
    let mut response = response;
    let ghost all = views(response@);
    let encoding = match encoding {
        Some(e) => e,
        None => {
            return response;
        },
    };
    if response.len() != 2 {
        return response;
    }
    let body = response.pop().unwrap();
    let head = response.pop().unwrap();
    assert(all[0] == head@ && all[1] == body@);
    let stamp_it = match (&head, &body) {
        (HttpFrame::BodyChunk { .. }, _) => false,
        (_, HttpFrame::BodyChunk { .. }) => true,
        _ => false,
    };
    if stamp_it {
        proof {
            lemma_content_encoding_name();
        }
        let mut values: Vec<String> = Vec::new();
        values.push(encoding);
        assert(texts_bytes(values@) =~= seq![encode_utf8(encoding@)]);
        let head = head.with_header("Content-Encoding".to_owned(), values);
        response.push(head);
        response.push(body);
        assert(views(response@) =~= stamped(all, text_view(Some(encoding))));
    } else {
        response.push(head);
        response.push(body);
        assert(views(response@) =~= all);
    }
    response
}

/// The bytes that answer a request, given the compression chosen for it
/// and what its handler returned.
pub fn respond(encoding: Option<String>, outcome: Result<Vec<HttpFrame>, HttpError>) -> (out: Vec<
    u8,
>)
    ensures
        out@ == response_bytes(text_view(encoding), outcome_view(outcome)),
{
    match outcome {
        Ok(response) => {
            let ghost frames = views(response@);
            let stamped_response = stamp(response, encoding);
            proof {
                assert(is_message(views(stamped_response@)) == is_message(frames));
            }
            match HttpFrame::to_stream(stamped_response) {
                Ok(data) => data,
                Err(_) => status_reply_bytes(500, "Internal Server Error"),
            }
        },
        Err(_) => status_reply_bytes(500, "Internal Server Error"),
    }
}

impl<H: Fn(Vec<HttpFrame>) -> Result<Vec<HttpFrame>, HttpError>> HttpServer<H> {
    /// Whether every handler can be called on every request.
    pub open spec fn accepts_all(self) -> bool {
        forall|i: int, request: Vec<HttpFrame>|
            0 <= i < self.handlers().len() ==> #[trigger] call_requires(
                self.handlers()[i],
                (request,),
            )
    }

    /// Whether `out` answers the request `frames`: where a route serves
    /// the request, `out` is written from what its handler returned for
    /// these frames, compressed as the request accepts; where none does,
    /// `out` is the reply with status 400.
    pub open spec fn answers(self, frames: Vec<HttpFrame>, out: Seq<u8>) -> bool {
        match route_of(self.routes(), views(frames@)) {
            None => out == no_route_reply(),
            Some(i) => exists|outcome: Result<Vec<HttpFrame>, HttpError>|
                call_ensures(self.handlers()[i], (frames,), outcome) && out == response_bytes(
                    accepted_encoding(views(frames@)[0]),
                    outcome_view(outcome),
                ),
        }
    }

    /// Answers one request. The first route that serves it has its
    /// handler called on the frames, and what the handler returns is
    /// written out, compressed as the request accepts; a request that no
    /// route serves is answered with status 400.
    pub fn handle_transaction(&self, frames: Vec<HttpFrame>) -> (out: Vec<u8>)
        requires
            self.accepts_all(),
        ensures
            self.answers(frames, out@),
    {
        if frames.len() == 0 {
            return status_reply_bytes(400, "Bad Request");
        }
        assert(views(frames@)[0] == frames@[0]@);
        let found = match &frames[0] {
            HttpFrame::RequestHead { method, uri, .. } => self.find_route(*method, uri.as_str()),
            _ => None,
        };
        match found {
            None => status_reply_bytes(400, "Bad Request"),
            Some(i) => {
                let encoding = match process_compression_headers(&frames[0]) {
                    Ok(e) => Some(e),
                    Err(_) => None,
                };
                let handler = self.handler(i);
                let outcome = (*handler)(frames);
                respond(encoding, outcome)
            },
        }
    }

    /// Whether `out` is what a connection is sent for what was read from
    /// it. A message that was read is answered as a request. An error is
    /// answered with its status where it is of the request class, and
    /// with nothing otherwise.
    pub open spec fn serves(
        self,
        read: Result<Seq<FrameView>, ErrorView>,
        out: Option<Seq<u8>>,
    ) -> bool {
        match read {
            Ok(request) => out is Some && exists|frames: Vec<HttpFrame>|
                views(frames@) == request && #[trigger] self.answers(frames, out->0),
            Err(e) => out == error_reply(e),
        }
    }

    /// The answer to a request serves the connection that the request
    /// was read from.
    pub proof fn lemma_answer_serves(self, frames: Vec<HttpFrame>, out: Seq<u8>)
        requires
            self.answers(frames, out),
        ensures
            self.serves(Ok(views(frames@)), Some(out)),
    {
        let sent = Some(out);
        assert(self.answers(frames, sent->0));
    }

    /// Serves one connection: reads one message from the stream and
    /// gives the bytes to send before the connection is closed, if there
    /// are any.
    pub fn handle_client<I: Iterator<Item = u8>>(&self, data: &mut I) -> (out: Option<Vec<u8>>)
        requires
            self.accepts_all(),
            is_stream(old(data)),
        ensures
            is_stream(final(data)),
            (*final(data)).remaining() == parse_message((*old(data)).remaining()).rest,
            self.serves(parse_message((*old(data)).remaining()).outcome, bytes_view(out)),
    {
        let ghost read = parse_message((*data).remaining()).outcome;
        match HttpFrame::from_stream(data) {
            Ok(frames) => {
                let bytes = self.handle_transaction(frames);
                proof {
                    self.lemma_answer_serves(frames, bytes@);
                }
                Some(bytes)
            },
            Err(e) => error_response(&e),
        }
    }
}

/// The bytes, where there are any.
pub open spec fn bytes_view(bytes: Option<Vec<u8>>) -> Option<Seq<u8>> {
    match bytes {
        Some(b) => Some(b@),
        None => None,
    }
}

} // verus!
