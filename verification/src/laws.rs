//! What holds of reading and writing together.

use vstd::prelude::*;
use vstd::utf8::*;
use crate::compress::{deflate_of, gzip_of};
use crate::dispatch::{negotiated, response_bytes, stamped};
use crate::error::ErrorView;
use crate::headers::{distinct_names, lemma_position_is, lemma_put_lookup, put, Header};
use crate::text::{
    decimal, is_digit, is_space, is_trimmed, lacks, lemma_ascii_is_utf8,
    lemma_decimal_reads_back, lemma_index_of_is, lemma_split_of_trimmed, lemma_split_on_part,
    lemma_tokens_of_space, lemma_tokens_word, lemma_trim_padded, lemma_trim_start_skips,
    no_space, split_on, tokens, trim, trim_each,
};
use crate::wire::{
    all_utf8, concat, content_encoding_name, content_length, content_length_name, crlf,
    deflate_name, frame_bytes, framed, gzip_name, has_body, head_of, header_line, header_lines,
    header_values, is_message, join, join_rest, lemma_line_len, lemma_line_len_is, line_end_at,
    line_len, message_bytes, parse_head, parse_header_line, parse_headers, parse_message,
    parse_start_line, payload, start_line_bytes, FrameView, Parsed,
};

verus! {

/// Whether no line ends inside `s`.
pub open spec fn no_line_end(s: Seq<u8>) -> bool {
    forall|j: int| !line_end_at(s, j)
}

/// Whether `s` can stand in a header line and be read back as it is: it
/// is valid UTF-8, neither starts nor ends with whitespace, and no line
/// ends inside it.
pub open spec fn plain_text(s: Seq<u8>) -> bool {
    valid_utf8(s) && is_trimmed(s) && no_line_end(s)
}

/// Whether a header is read back as it is written: its name is plain and
/// holds no colon, and it has at least one value, each plain and without
/// a comma.
pub open spec fn plain_header(h: Header) -> bool {
    &&& plain_text(h.name)
    &&& lacks(h.name, 58)
    &&& h.values.len() > 0
    &&& forall|i: int|
        0 <= i < h.values.len() ==> plain_text(#[trigger] h.values[i]) && lacks(h.values[i], 44)
}

/// Whether the headers are read back as they are written: no name occurs
/// twice and every header is plain.
pub open spec fn plain_headers(hs: Seq<Header>) -> bool {
    distinct_names(hs) && forall|i: int| 0 <= i < hs.len() ==> plain_header(#[trigger] hs[i])
}

/// Each value with a space in front.
pub open spec fn spaced(values: Seq<Seq<u8>>) -> Seq<Seq<u8>> {
    Seq::new(values.len(), |i: int| seq![32u8] + values[i])
}

/// No line ends inside two texts put together, where none ends inside
/// either and none is made where they meet.
pub proof fn lemma_no_line_end_concat(a: Seq<u8>, b: Seq<u8>)
    requires
        no_line_end(a),
        no_line_end(b),
        a.len() > 0 && b.len() > 0 ==> a.last() != 13 || b[0] != 10,
    ensures
        no_line_end(a + b),
{
    assert forall|j: int| !line_end_at(a + b, j) by {
        if line_end_at(a + b, j) {
            if j + 1 < a.len() {
                assert(line_end_at(a, j));
            } else if j >= a.len() {
                assert(line_end_at(b, j - a.len()));
            }
        }
    }
}

/// A text without a line end, followed by a line terminator, is a line.
pub proof fn lemma_line_len_of_line(content: Seq<u8>, rest: Seq<u8>)
    requires
        no_line_end(content),
    ensures
        line_len(content + crlf() + rest) == content.len() + 2,
        (content + crlf() + rest).take(content.len() as int + 2) == content + crlf(),
        (content + crlf() + rest).skip(content.len() as int + 2) == rest,
{
    let full = content + crlf() + rest;
    assert forall|j: int| 0 <= j < content.len() implies !line_end_at(full, j) by {
        if j + 1 < content.len() {
            assert(!line_end_at(content, j));
        }
    }
    lemma_line_len_is(full, content.len() as int + 2);
    assert(full.take(content.len() as int + 2) =~= content + crlf());
    assert(full.skip(content.len() as int + 2) =~= rest);
}

/// Splitting what follows the first of several joined values gives each
/// value back with a space in front.
pub proof fn lemma_join_rest_split(values: Seq<Seq<u8>>, cur: Seq<u8>)
    requires
        forall|i: int| 0 <= i < values.len() ==> lacks(#[trigger] values[i], 44),
    ensures
        split_on(join_rest(values), 44, cur) == seq![cur] + spaced(values),
    decreases values.len(),
{
    if values.len() == 0 {
        assert(seq![cur] + spaced(values) =~= seq![cur]);
    } else {
        let tail = values.drop_first();
        let text = join_rest(values);
        let next = seq![32u8] + values[0];
        assert(text.drop_first() =~= next + join_rest(tail));
        assert(lacks(next, 44)) by {
            assert forall|i: int| 0 <= i < next.len() implies #[trigger] next[i] != 44 by {
                if i > 0 {
                    assert(next[i] == values[0][i - 1]);
                    assert(lacks(values[0], 44));
                }
            }
        }
        lemma_split_on_part(next, join_rest(tail), 44, seq![]);
        assert(Seq::<u8>::empty() + next =~= next);
        assert forall|i: int| 0 <= i < tail.len() implies lacks(#[trigger] tail[i], 44) by {
            assert(tail[i] == values[i + 1]);
        }
        lemma_join_rest_split(tail, next);
        assert(seq![cur] + (seq![next] + spaced(tail)) =~= seq![cur] + spaced(values));
    }
}

/// Joined values that are trimmed and hold no comma are split into the
/// same values.
pub proof fn lemma_join_split(values: Seq<Seq<u8>>)
    requires
        values.len() > 0,
        forall|i: int|
            0 <= i < values.len() ==> is_trimmed(#[trigger] values[i]) && lacks(values[i], 44),
    ensures
        trim_each(split_on(join(values), 44, seq![])) == values,
{
    let tail = values.drop_first();
    assert forall|i: int| 0 <= i < tail.len() implies lacks(#[trigger] tail[i], 44) by {
        assert(tail[i] == values[i + 1]);
    }
    lemma_split_on_part(values[0], join_rest(tail), 44, seq![]);
    assert(Seq::<u8>::empty() + values[0] =~= values[0]);
    lemma_join_rest_split(tail, values[0]);
    let parts = seq![values[0]] + spaced(tail);
    assert forall|i: int| 0 <= i < values.len() implies trim(#[trigger] parts[i]) == values[i] by {
        if i > 0 {
            assert(parts[i] == seq![32u8] + values[i]);
            lemma_trim_start_skips(seq![32u8], values[i]);
        }
    }
    assert(trim_each(parts) =~= values);
}

/// No line ends inside the joined form of plain values, and the joined
/// form does not start with whitespace.
pub proof fn lemma_join_is_plain(values: Seq<Seq<u8>>)
    requires
        forall|i: int|
            0 <= i < values.len() ==> is_trimmed(#[trigger] values[i]) && no_line_end(values[i]),
    ensures
        no_line_end(join_rest(values)),
        no_line_end(join(values)),
        join(values).len() > 0 ==> !is_space(join(values)[0]),
    decreases values.len(),
{
    if values.len() > 0 {
        let tail = values.drop_first();
        assert forall|i: int| 0 <= i < tail.len() implies is_trimmed(#[trigger] tail[i])
            && no_line_end(tail[i]) by {
            assert(tail[i] == values[i + 1]);
        }
        lemma_join_is_plain(tail);
        let sep = seq![44u8, 32u8];
        assert(no_line_end(sep));
        lemma_no_line_end_concat(sep, values[0]);
        lemma_no_line_end_concat(sep + values[0], join_rest(tail));
        lemma_no_line_end_concat(values[0], join_rest(tail));
    }
}

/// A plain header is read back from its line, and its line ends where it
/// was ended.
pub proof fn lemma_header_line_reads_back(h: Header, rest: Seq<u8>)
    requires
        plain_header(h),
    ensures
        line_len(header_line(h) + rest) == header_line(h).len(),
        header_line(h).len() > 2,
        (header_line(h) + rest).take(header_line(h).len() as int) == header_line(h),
        (header_line(h) + rest).skip(header_line(h).len() as int) == rest,
        parse_header_line(header_line(h)) == Some(h),
{
    let mark = seq![58u8, 32u8];
    let joined = join(h.values);
    let content = h.name + mark + joined;
    let line = header_line(h);
    lemma_join_is_plain(h.values);
    assert(no_line_end(mark));
    lemma_no_line_end_concat(h.name, mark);
    lemma_no_line_end_concat(h.name + mark, joined);
    lemma_line_len_of_line(content, rest);
    assert(line =~= content + crlf());
    assert(line + rest =~= content + crlf() + rest);

    let c = h.name.len() as int;
    assert(line[c] == 58);
    assert forall|j: int| 0 <= j < c implies #[trigger] line[j] != 58 by {
        assert(line[j] == h.name[j]);
    }
    lemma_index_of_is(line, 58, c);
    assert(line.take(c) =~= h.name);
    let text = line.skip(c + 1);
    assert(text =~= seq![32u8] + joined + crlf());
    lemma_trim_padded(seq![32u8], joined, crlf());
    lemma_split_of_trimmed(joined, 44);
    lemma_join_split(h.values);
    assert(header_values(text) == h.values);
    assert(all_utf8(h.values));
}

/// Plain headers are read back from their lines and the blank line, each
/// added behind those already read.
pub proof fn lemma_headers_read_back(hs: Seq<Header>, acc: Seq<Header>, rest: Seq<u8>)
    requires
        plain_headers(acc + hs),
    ensures
        parse_headers(header_lines(hs) + crlf() + rest, acc) == (Parsed {
            outcome: Ok::<Seq<Header>, ErrorView>(acc + hs),
            rest,
        }),
    decreases hs.len(),
{
    let input = header_lines(hs) + crlf() + rest;
    if hs.len() == 0 {
        assert(input =~= Seq::<u8>::empty() + crlf() + rest);
        assert(no_line_end(Seq::<u8>::empty()));
        lemma_line_len_of_line(seq![], rest);
        assert(input.skip(2) =~= rest);
        assert(acc + hs =~= acc);
    } else {
        let h = hs[0];
        let tail = hs.drop_first();
        let all = acc + hs;
        assert(all[acc.len() as int] == h);
        assert(plain_header(h));
        let after = header_lines(tail) + crlf() + rest;
        assert(input =~= header_line(h) + after);
        lemma_header_line_reads_back(h, after);
        assert forall|j: int| 0 <= j < acc.len() implies (#[trigger] acc[j]).name != h.name by {
            assert(all[j] == acc[j]);
        }
        lemma_position_is(acc, h.name, acc.len() as int);
        assert(put(acc, h.name, h.values) == acc.push(h));
        assert(acc.push(h) + tail =~= all);
        lemma_headers_read_back(tail, acc.push(h), rest);
    }
}


/// Whether a head frame is read back as it is written. Its headers are
/// plain. The URI of a request is one word of valid UTF-8; the reason of a
/// response is one word of valid UTF-8 or empty.
pub open spec fn plain_head(f: FrameView) -> bool {
    match f {
        FrameView::RequestHead { uri, headers, .. } => uri.len() > 0 && no_space(uri)
            && valid_utf8(uri) && plain_headers(headers),
        FrameView::ResponseHead { reason, headers, .. } => no_space(reason) && valid_utf8(reason)
            && plain_headers(headers),
        FrameView::BodyChunk { .. } => false,
    }
}

/// A text without whitespace holds no line end.
pub proof fn lemma_word_has_no_line_end(w: Seq<u8>)
    requires
        no_space(w),
    ensures
        no_line_end(w),
{
    assert forall|j: int| !line_end_at(w, j) by {
        if line_end_at(w, j) {
            assert(is_space(w[j]));
        }
    }
}

/// Three words with a space between them and a line terminator behind
/// them are a line with those three tokens.
pub proof fn lemma_three_words(a: Seq<u8>, b: Seq<u8>, c: Seq<u8>, rest: Seq<u8>)
    requires
        no_space(a) && a.len() > 0,
        no_space(b) && b.len() > 0,
        no_space(c),
    ensures
        ({
            let line = a + seq![32u8] + b + seq![32u8] + c + crlf();
            &&& line_len(line + rest) == line.len()
            &&& (line + rest).take(line.len() as int) == line
            &&& (line + rest).skip(line.len() as int) == rest
            &&& tokens(line) == if c.len() > 0 {
                seq![a, b, c]
            } else {
                seq![a, b]
            }
        }),
{
    let sp = seq![32u8];
    let content = a + sp + b + sp + c;
    let line = content + crlf();
    lemma_word_has_no_line_end(a);
    lemma_word_has_no_line_end(b);
    lemma_word_has_no_line_end(c);
    assert(no_line_end(sp));
    lemma_no_line_end_concat(a, sp);
    lemma_no_line_end_concat(a + sp, b);
    lemma_no_line_end_concat(a + sp + b, sp);
    lemma_no_line_end_concat(a + sp + b + sp, c);
    lemma_line_len_of_line(content, rest);
    assert(line + rest =~= content + crlf() + rest);

    let after_b = c + crlf();
    let after_a = b + sp + after_b;
    assert(line =~= a + sp + after_a);
    lemma_tokens_word(a, 32, after_a);
    lemma_tokens_word(b, 32, after_b);
    if c.len() > 0 {
        assert(after_b =~= c + seq![13u8] + seq![10u8]);
        lemma_tokens_word(c, 13, seq![10u8]);
        lemma_tokens_of_space(seq![10u8]);
        assert(seq![a] + (seq![b] + (seq![c] + Seq::<Seq<u8>>::empty())) =~= seq![a, b, c]);
    } else {
        assert(after_b =~= crlf());
        lemma_tokens_of_space(crlf());
        assert(seq![a] + (seq![b] + Seq::<Seq<u8>>::empty()) =~= seq![a, b]);
    }
}

/// The digits of a number are one word.
pub proof fn lemma_decimal_is_word(n: nat)
    ensures
        decimal(n).len() > 0,
        no_space(decimal(n)),
{
    lemma_decimal_reads_back(n, n);
    assert forall|i: int| 0 <= i < decimal(n).len() implies !is_space(#[trigger] decimal(n)[i]) by {
        assert(is_digit(decimal(n)[i]));
    }
}

/// The first line of a plain head is read back as it is written, and
/// ends where it was ended.
pub proof fn lemma_start_line_reads_back(f: FrameView, rest: Seq<u8>)
    requires
        plain_head(f),
    ensures
        ({
            let line = start_line_bytes(f);
            &&& line_len(line + rest) == line.len()
            &&& (line + rest).take(line.len() as int) == line
            &&& (line + rest).skip(line.len() as int) == rest
            &&& parse_start_line(line) matches Ok(start)
            &&& head_of(start, f.headers()) == f
        }),
{
    match f {
        FrameView::RequestHead { method, uri, version, headers } => {
            method.lemma_token();
            version.lemma_token();
            lemma_three_words(method.token(), uri, version.token(), rest);
        },
        FrameView::ResponseHead { code, reason, version, headers } => {
            version.lemma_token();
            lemma_decimal_is_word(code as nat);
            lemma_decimal_reads_back(code as nat, 65535);
            lemma_three_words(version.token(), decimal(code as nat), reason, rest);
            let t = tokens(start_line_bytes(f));
            if reason.len() > 0 {
                assert(t.skip(2) =~= seq![reason]);
                assert(seq![reason].drop_first() =~= Seq::<Seq<u8>>::empty());
                assert(concat(seq![reason].drop_first()) =~= Seq::<u8>::empty());
                assert(concat(seq![reason]) =~= reason);
            } else {
                assert(t.skip(2) =~= Seq::<Seq<u8>>::empty());
                assert(concat(t.skip(2)) =~= reason);
            }
        },
        FrameView::BodyChunk { .. } => {},
    }
}

/// A plain head is read back from its bytes as it is, and what follows
/// its bytes is left unread.
pub proof fn lemma_head_reads_back(f: FrameView, rest: Seq<u8>)
    requires
        plain_head(f),
    ensures
        parse_head(frame_bytes(f) + rest) == (Parsed {
            outcome: Ok::<FrameView, ErrorView>(f),
            rest,
        }),
{
    let line = start_line_bytes(f);
    let after = header_lines(f.headers()) + crlf() + rest;
    assert(frame_bytes(f) + rest =~= line + after);
    lemma_start_line_reads_back(f, after);
    assert(Seq::<Header>::empty() + f.headers() =~= f.headers());
    lemma_headers_read_back(f.headers(), seq![], rest);
}

/// Writing a head and reading it gives the head back. This holds of
/// every plain head that declares no body and stands alone: such a head
/// is read back as it is, what follows it in the stream is left unread,
/// and writing what was read gives the same bytes again.
pub proof fn law_head_round_trip(head: FrameView, rest: Seq<u8>)
    requires
        plain_head(head),
        content_length(head.headers()) == 0,
    ensures
        message_bytes(seq![head]) == frame_bytes(head),
        parse_message(message_bytes(seq![head]) + rest) == (Parsed {
            outcome: Ok::<Seq<FrameView>, ErrorView>(seq![head]),
            rest,
        }),
        parse_message(message_bytes(seq![head])).outcome matches Ok(frames)
            && message_bytes(frames) == message_bytes(seq![head]),
{
    lemma_head_reads_back(head, rest);
    lemma_head_reads_back(head, seq![]);
    assert(frame_bytes(head) + Seq::<u8>::empty() =~= frame_bytes(head));
}


/// A message whose head declares the length of its body is read with a
/// body of exactly that length. This holds of every plain head: the bytes
/// of the head followed by as many body bytes as its `Content-Length`
/// says are read back as the head and, where the length is not 0, a body
/// of those bytes; what follows them in the stream is left unread.
pub proof fn law_body_has_declared_length(head: FrameView, body: Seq<u8>, rest: Seq<u8>)
    requires
        plain_head(head),
        content_length(head.headers()) == body.len(),
    ensures
        parse_message(frame_bytes(head) + body + rest) == (Parsed {
            outcome: Ok::<Seq<FrameView>, ErrorView>(
                if body.len() > 0 {
                    seq![head, FrameView::BodyChunk { chunk: body }]
                } else {
                    seq![head]
                },
            ),
            rest,
        }),
{
    assert(frame_bytes(head) + body + rest =~= frame_bytes(head) + (body + rest));
    lemma_head_reads_back(head, body + rest);
    assert((body + rest).take(body.len() as int) =~= body);
    assert((body + rest).skip(body.len() as int) =~= rest);
    assert(body.len() == 0 ==> body + rest =~= rest);
}

/// Whatever the stream holds, a body that is read has the length that
/// the head declares, and stands directly behind the head.
pub proof fn law_body_follows_head(input: Seq<u8>)
    requires
        parse_message(input).outcome is Ok,
    ensures
        ({
            let frames = parse_message(input).outcome->Ok_0;
            let head = parse_head(input);
            let n = content_length(frames[0].headers());
            &&& head.outcome == Ok::<FrameView, ErrorView>(frames[0])
            &&& n == 0 ==> frames.len() == 1 && parse_message(input).rest == head.rest
            &&& n > 0 ==> frames.len() == 2 && frames[1] == (FrameView::BodyChunk {
                chunk: head.rest.take(n as int),
            }) && frames[1]->chunk.len() == n && parse_message(input).rest == head.rest.skip(
                n as int,
            )
        }),
{
}

/// Whether a blank line stands at index `i` of `s`: a line end directly
/// followed by another.
pub open spec fn blank_line_at(s: Seq<u8>, i: int) -> bool {
    line_end_at(s, i) && line_end_at(s, i + 2)
}

/// Headers that are read to their end were ended by a blank line.
pub proof fn lemma_headers_need_blank_line(input: Seq<u8>, k: int, acc: Seq<Header>)
    requires
        2 <= k <= input.len(),
        line_end_at(input, k - 2),
        parse_headers(input.skip(k), acc).outcome is Ok,
    ensures
        exists|i: int| blank_line_at(input, i),
    decreases input.len() - k,
{
    let s = input.skip(k);
    let n = line_len(s);
    lemma_line_len(s);
    if n == 2 {
        assert(line_end_at(s, 0));
        assert(s[0] == input[k] && s[1] == input[k + 1]);
        assert(blank_line_at(input, k - 2));
    } else {
        assert(line_end_at(s, n - 2));
        assert(s[n - 2] == input[k + n - 2] && s[n - 1] == input[k + n - 1]);
        assert(s.skip(n) =~= input.skip(k + n));
        let h = parse_header_line(s.take(n))->0;
        lemma_headers_need_blank_line(input, k + n, put(acc, h.name, h.values));
    }
}

/// A stream without a blank line never yields a frame: reading a message
/// from it fails.
pub proof fn law_missing_terminator(input: Seq<u8>)
    requires
        forall|i: int| !blank_line_at(input, i),
    ensures
        parse_head(input).outcome is Err,
        parse_message(input).outcome is Err,
{
    let n = line_len(input);
    lemma_line_len(input);
    if n != 0 && parse_start_line(input.take(n)) is Ok && parse_headers(
        input.skip(n),
        seq![],
    ).outcome is Ok {
        lemma_headers_need_blank_line(input, n, seq![]);
    }
}

/// The header that declares a body of `n` bytes is plain.
pub proof fn lemma_length_header_is_plain(n: nat)
    ensures
        plain_header(Header { name: content_length_name(), values: seq![decimal(n)] }),
{
    let name = content_length_name();
    let digits = decimal(n);
    lemma_decimal_is_word(n);
    lemma_decimal_reads_back(n, n);
    lemma_word_has_no_line_end(digits);
    assert forall|i: int| 0 <= i < digits.len() implies (#[trigger] digits[i]) < 128
        && digits[i] != 44 by {
        assert(is_digit(digits[i]));
    }
    lemma_ascii_is_utf8(digits);
    assert forall|i: int| 0 <= i < name.len() implies (#[trigger] name[i]) < 128 && !is_space(
        name[i],
    ) && name[i] != 58 by {
        assert(name[i] >= 45);
        assert(name[i] <= 116);
        assert(name[i] != 58);
    }
    lemma_ascii_is_utf8(name);
    lemma_word_has_no_line_end(name);
}

/// Writing a message and reading it gives a message that is written the
/// same way. This holds of every plain head, alone or followed by a body
/// of at most 2^32 - 1 bytes, unless the head alone declares a body or
/// the head declares a compression, which writing would apply again.
/// What is read is the head, with the length of the body declared where
/// it has one, and the body where it is not empty.
pub proof fn law_message_round_trip(frames: Seq<FrameView>, rest: Seq<u8>)
    requires
        is_message(frames),
        plain_head(frames[0]),
        !has_body(frames) ==> content_length(frames[0].headers()) == 0,
        has_body(frames) ==> frames[1]->chunk.len() <= 0xffff_ffff && payload(
            frames[0].headers(),
            frames[1]->chunk,
        ) == frames[1]->chunk,
    ensures
        parse_message(message_bytes(frames) + rest).rest == rest,
        parse_message(message_bytes(frames) + rest).outcome matches Ok(read) && message_bytes(read)
            == message_bytes(frames) && read[0] == (if has_body(frames) {
            frames[0].with_headers(
                put(
                    frames[0].headers(),
                    content_length_name(),
                    seq![decimal(frames[1]->chunk.len())],
                ),
            )
        } else {
            frames[0]
        }) && read.len() == (if has_body(frames) && frames[1]->chunk.len() > 0 {
            2int
        } else {
            1int
        }) && (read.len() == 2 ==> read[1] == frames[1]),
{
    let head = frames[0];
    if has_body(frames) {
        let body = frames[1]->chunk;
        let n = body.len();
        let value = seq![decimal(n)];
        let before = head.headers();
        let after = put(before, content_length_name(), value);
        let declared = head.with_headers(after);
        lemma_put_lookup(before, content_length_name(), value);
        lemma_length_header_is_plain(n);
        assert(plain_headers(after)) by {
            assert forall|i: int| 0 <= i < after.len() implies plain_header(
                #[trigger] after[i],
            ) by {
                if i < before.len() && after[i] == before[i] {
                    assert(plain_header(before[i]));
                }
            }
        }
        assert(plain_head(declared));
        lemma_decimal_reads_back(n, 0xffff_ffff);
        assert(content_length(after) == n);
        law_body_has_declared_length(declared, body, rest);
        assert(message_bytes(frames) == frame_bytes(declared) + body);
        assert(content_encoding_name()[8] != content_length_name()[8]);
        assert(payload(after, body) == body);
        if n > 0 {
            let read = seq![declared, FrameView::BodyChunk { chunk: body }];
            assert(has_body(read));
            assert(message_bytes(read) == framed(declared, body));
        } else {
            assert(frame_bytes(declared) + body =~= frame_bytes(declared));
        }
    } else {
        assert(frames =~= seq![head]);
        law_head_round_trip(head, rest);
    }
}


/// A compression that was chosen for a response with a body is declared
/// and applied: the response is written with the compression as its
/// `Content-Encoding`, with the compressed body behind the head, and with
/// the length of the compressed body as its `Content-Length`.
pub proof fn law_chosen_compression_is_applied(response: Seq<FrameView>, encoding: Seq<u8>)
    requires
        has_body(response),
        encoding == gzip_name() || encoding == deflate_name(),
    ensures
        response_bytes(Some(encoding), Ok(response)) == framed(
            response[0].with_headers(
                put(response[0].headers(), content_encoding_name(), seq![encoding]),
            ),
            if encoding == gzip_name() {
                gzip_of(response[1]->chunk)
            } else {
                deflate_of(response[1]->chunk)
            },
        ),
{
    let declared = put(response[0].headers(), content_encoding_name(), seq![encoding]);
    lemma_put_lookup(response[0].headers(), content_encoding_name(), seq![encoding]);
    assert(gzip_name().len() != deflate_name().len());
    let sent = stamped(response, Some(encoding));
    assert(has_body(sent));
    assert(sent[0].headers() == declared);
}

/// Where a request lists the compressions that it accepts, the first of
/// them that is `gzip` or `deflate` is chosen, whatever stands before it.
pub proof fn law_first_offered_compression(
    before: Seq<Seq<u8>>,
    encoding: Seq<u8>,
    after: Seq<Seq<u8>>,
)
    requires
        encoding == gzip_name() || encoding == deflate_name(),
        forall|i: int|
            0 <= i < before.len() ==> #[trigger] before[i] != gzip_name() && before[i]
                != deflate_name(),
    ensures
        negotiated(before + seq![encoding] + after) == Some(encoding),
    decreases before.len(),
{
    let all = before + seq![encoding] + after;
    if before.len() == 0 {
        assert(all[0] == encoding);
    } else {
        assert(all[0] == before[0]);
        assert(all.drop_first() =~= before.drop_first() + seq![encoding] + after);
        let tail = before.drop_first();
        assert forall|i: int| 0 <= i < tail.len() implies #[trigger] tail[i] != gzip_name()
            && tail[i] != deflate_name() by {
            assert(tail[i] == before[i + 1]);
        }
        law_first_offered_compression(tail, encoding, after);
    }
}

} // verus!
