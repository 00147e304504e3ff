//! Bytes and text: comparing, trimming, splitting into tokens and parts,
//! and reading and writing decimal numbers.
//!
//! Whitespace is the six ASCII whitespace bytes throughout.

use vstd::prelude::*;
use vstd::utf8::*;

verus! {

/// Whether two byte slices hold the same bytes.
pub fn bytes_eq(a: &[u8], b: &[u8]) -> (r: bool)
    ensures
        r == (a@ == b@),
{
    if a.len() != b.len() {
        return false;
    }
    let mut i: usize = 0;
    while i < a.len()
        invariant
            i <= a.len(),
            a.len() == b.len(),
            forall|j: int| 0 <= j < i ==> a@[j] == b@[j],
        decreases a.len() - i,
    {
        if a[i] != b[i] {
            return false;
        }
        i += 1;
    }
    assert(a@ =~= b@);
    true
}

/// Whether `prefix` is a leading part of `s`.
pub fn starts_with(s: &[u8], prefix: &[u8]) -> (r: bool)
    ensures
        r == prefix@.is_prefix_of(s@),
{
    if prefix.len() > s.len() {
        return false;
    }
    let mut i: usize = 0;
    while i < prefix.len()
        invariant
            i <= prefix.len() <= s.len(),
            forall|j: int| 0 <= j < i ==> s@[j] == prefix@[j],
        decreases prefix.len() - i,
    {
        if s[i] != prefix[i] {
            return false;
        }
        i += 1;
    }
    assert(prefix@ =~= s@.subrange(0, prefix@.len() as int));
    true
}

/// Appends the bytes of `s` to `out`.
pub fn append(out: &mut Vec<u8>, s: &[u8])
    ensures
        final(out)@ == old(out)@ + s@,
{
    let mut i: usize = 0;
    while i < s.len()
        invariant
            i <= s.len(),
            out@ == old(out)@ + s@.subrange(0, i as int),
        decreases s.len() - i,
    {
        out.push(s[i]);
        i += 1;
        assert(s@.subrange(0, i as int) =~= s@.subrange(0, i - 1).push(s@[i - 1]));
    }
    assert(s@.subrange(0, s.len() as int) =~= s@);
}

/// The bytes of `s` from `lo` up to `hi`, as a vector of their own.
pub fn copy_range(s: &[u8], lo: usize, hi: usize) -> (v: Vec<u8>)
    requires
        lo <= hi <= s.len(),
    ensures
        v@ == s@.subrange(lo as int, hi as int),
{
    let mut v: Vec<u8> = Vec::new();
    let mut i: usize = lo;
    while i < hi
        invariant
            lo <= i <= hi <= s.len(),
            v@ == s@.subrange(lo as int, i as int),
        decreases hi - i,
    {
        v.push(s[i]);
        i += 1;
        assert(s@.subrange(lo as int, i as int) =~= s@.subrange(lo as int, i - 1).push(s@[i - 1]));
    }
    v
}

/// Calls `String::from_utf8`: the bytes become a string exactly when they
/// are valid UTF-8, and the string then encodes back to the same bytes.
#[verifier::external_body]
pub(crate) fn text_of(bytes: Vec<u8>) -> (r: Option<String>)
    ensures
        r is Some <==> valid_utf8(bytes@),
        r matches Some(s) ==> encode_utf8(s@) == bytes@,
{
    match String::from_utf8(bytes) {
        Ok(text) => Some(text),
        Err(_) => None,
    }
}

/// The whitespace bytes: space, tab, line feed, vertical tab, form feed
/// and carriage return.
pub open spec fn is_space(b: u8) -> bool {
    b == 32 || (9 <= b && b <= 13)
}

/// Whether `b` is a whitespace byte.
pub fn space(b: u8) -> (r: bool)
    ensures
        r == is_space(b),
{
    b == 32 || (9 <= b && b <= 13)
}

/// `s` without its leading whitespace.
pub open spec fn trim_start(s: Seq<u8>) -> Seq<u8>
    decreases s.len(),
{
    if s.len() > 0 && is_space(s[0]) {
        trim_start(s.drop_first())
    } else {
        s
    }
}

/// `s` without its trailing whitespace.
pub open spec fn trim_end(s: Seq<u8>) -> Seq<u8>
    decreases s.len(),
{
    if s.len() > 0 && is_space(s.last()) {
        trim_end(s.drop_last())
    } else {
        s
    }
}

/// `s` without leading and trailing whitespace.
pub open spec fn trim(s: Seq<u8>) -> Seq<u8> {
    trim_end(trim_start(s))
}

/// Whether `s` neither starts nor ends with whitespace.
pub open spec fn is_trimmed(s: Seq<u8>) -> bool {
    s.len() > 0 ==> !is_space(s[0]) && !is_space(s.last())
}

/// Whitespace in front of a text is trimmed away.
pub proof fn lemma_trim_start_skips(pad: Seq<u8>, s: Seq<u8>)
    requires
        forall|i: int| 0 <= i < pad.len() ==> is_space(#[trigger] pad[i]),
    ensures
        trim_start(pad + s) == trim_start(s),
    decreases pad.len(),
{
    if pad.len() > 0 {
        assert((pad + s).drop_first() =~= pad.drop_first() + s);
        lemma_trim_start_skips(pad.drop_first(), s);
    } else {
        assert(pad + s =~= s);
    }
}

/// Whitespace behind a text is trimmed away.
pub proof fn lemma_trim_end_skips(s: Seq<u8>, pad: Seq<u8>)
    requires
        forall|i: int| 0 <= i < pad.len() ==> is_space(#[trigger] pad[i]),
    ensures
        trim_end(s + pad) == trim_end(s),
    decreases pad.len(),
{
    if pad.len() > 0 {
        assert((s + pad).drop_last() =~= s + pad.drop_last());
        lemma_trim_end_skips(s, pad.drop_last());
    } else {
        assert(s + pad =~= s);
    }
}

/// The trimmed part of `s`, copied out.
pub fn trimmed(s: &[u8]) -> (v: Vec<u8>)
    ensures
        v@ == trim(s@),
{
    let mut lo: usize = 0;
    assert(s@.skip(0) =~= s@);
    while lo < s.len() && space(s[lo])
        invariant
            lo <= s.len(),
            trim_start(s@) == trim_start(s@.skip(lo as int)),
        decreases s.len() - lo,
    {
        assert(s@.skip(lo as int).drop_first() =~= s@.skip(lo + 1));
        lo += 1;
    }
    assert(trim_start(s@) == s@.skip(lo as int));
    let mut hi: usize = s.len();
    while hi > lo && space(s[hi - 1])
        invariant
            lo <= hi <= s.len(),
            trim(s@) == trim_end(s@.subrange(lo as int, hi as int)),
        decreases hi - lo,
    {
        assert(s@.subrange(lo as int, hi as int).drop_last() =~= s@.subrange(lo as int, hi - 1));
        hi -= 1;
    }
    copy_range(s, lo, hi)
}

/// The token being read, as a list of no or one token.
pub open spec fn flush(cur: Seq<u8>) -> Seq<Seq<u8>> {
    if cur.len() > 0 {
        seq![cur]
    } else {
        seq![]
    }
}

/// The whitespace-separated tokens of `cur` followed by `s`, where `cur`
/// is the part of a token read so far and holds no whitespace.
pub open spec fn split_words(s: Seq<u8>, cur: Seq<u8>) -> Seq<Seq<u8>>
    decreases s.len(),
{
    if s.len() == 0 {
        flush(cur)
    } else if is_space(s[0]) {
        flush(cur) + split_words(s.drop_first(), seq![])
    } else {
        split_words(s.drop_first(), cur.push(s[0]))
    }
}

/// The maximal runs of non-whitespace bytes of `s`, in order.
pub open spec fn tokens(s: Seq<u8>) -> Seq<Seq<u8>> {
    split_words(s, seq![])
}

/// Whether `s` holds no whitespace byte.
pub open spec fn no_space(s: Seq<u8>) -> bool {
    forall|i: int| 0 <= i < s.len() ==> !is_space(#[trigger] s[i])
}

/// Bytes without whitespace extend the token being read.
pub proof fn lemma_split_words_word(w: Seq<u8>, rest: Seq<u8>, cur: Seq<u8>)
    requires
        no_space(w),
    ensures
        split_words(w + rest, cur) == split_words(rest, cur + w),
    decreases w.len(),
{
    if w.len() == 0 {
        assert(w + rest =~= rest);
        assert(cur + w =~= cur);
    } else {
        assert((w + rest).drop_first() =~= w.drop_first() + rest);
        assert(!is_space(w[0]));
        lemma_split_words_word(w.drop_first(), rest, cur.push(w[0]));
        assert(cur.push(w[0]) + w.drop_first() =~= cur + w);
    }
}

/// A whitespace byte ends the token being read.
pub proof fn lemma_split_words_space(b: u8, rest: Seq<u8>, cur: Seq<u8>)
    requires
        is_space(b),
    ensures
        split_words(seq![b] + rest, cur) == flush(cur) + split_words(rest, seq![]),
{
    assert((seq![b] + rest).drop_first() =~= rest);
}

/// The byte sequences that the vectors hold.
pub open spec fn byte_views(v: Seq<Vec<u8>>) -> Seq<Seq<u8>> {
    Seq::new(v.len(), |i: int| v[i]@)
}

/// The whitespace-separated tokens of `s`, each copied out.
pub fn split_whitespace(s: &[u8]) -> (out: Vec<Vec<u8>>)
    ensures
        byte_views(out@) == tokens(s@),
{
    let mut out: Vec<Vec<u8>> = Vec::new();
    let mut cur: Vec<u8> = Vec::new();
    let ghost mut done: Seq<Seq<u8>> = seq![];
    let mut i: usize = 0;
    assert(s@.skip(0) =~= s@);
    assert(done + split_words(s@, cur@) =~= split_words(s@, cur@));
    while i < s.len()
        invariant
            i <= s.len(),
            done.len() == out@.len(),
            forall|j: int| 0 <= j < out@.len() ==> (#[trigger] out@[j])@ == done[j],
            tokens(s@) == done + split_words(s@.skip(i as int), cur@),
        decreases s.len() - i,
    {
        assert(s@.skip(i as int).drop_first() =~= s@.skip(i + 1));
        let b = s[i];
        if space(b) {
            if cur.len() > 0 {
                proof {
                    assert(done + (seq![cur@] + split_words(s@.skip(i + 1), seq![]))
                        =~= done.push(cur@) + split_words(s@.skip(i + 1), seq![]));
                    done = done.push(cur@);
                }
                out.push(cur);
                cur = Vec::new();
            } else {
                assert(flush(cur@) + split_words(s@.skip(i + 1), seq![]) =~= split_words(
                    s@.skip(i + 1),
                    seq![],
                ));
                assert(cur@ =~= seq![]);
            }
        } else {
            cur.push(b);
        }
        i += 1;
    }
    if cur.len() > 0 {
        proof {
            assert(done + seq![cur@] =~= done.push(cur@));
            done = done.push(cur@);
        }
        out.push(cur);
    } else {
        assert(done + flush(cur@) =~= done);
    }
    assert(byte_views(out@) =~= done);
    out
}

/// The index of the first `b` in `s`, or the length of `s` where there is
/// none.
pub open spec fn index_of(s: Seq<u8>, b: u8) -> int
    decreases s.len(),
{
    if s.len() == 0 || s[0] == b {
        0
    } else {
        1 + index_of(s.drop_first(), b)
    }
}

/// What [`index_of`] returns: the place of the first `b`.
pub proof fn lemma_index_of(s: Seq<u8>, b: u8)
    ensures
        0 <= index_of(s, b) <= s.len(),
        index_of(s, b) < s.len() ==> s[index_of(s, b)] == b,
        forall|j: int| 0 <= j < index_of(s, b) ==> #[trigger] s[j] != b,
    decreases s.len(),
{
    if s.len() == 0 || s[0] == b {
    } else {
        lemma_index_of(s.drop_first(), b);
        let r = index_of(s.drop_first(), b);
        assert forall|j: int| 0 <= j < 1 + r implies #[trigger] s[j] != b by {
            if j > 0 {
                assert(s.drop_first()[j - 1] == s[j]);
            }
        }
    }
}

/// The first `b` is where a `b` stands with none before it.
pub proof fn lemma_index_of_is(s: Seq<u8>, b: u8, n: int)
    requires
        0 <= n <= s.len(),
        n < s.len() ==> s[n] == b,
        forall|j: int| 0 <= j < n ==> #[trigger] s[j] != b,
    ensures
        index_of(s, b) == n,
{
    lemma_index_of(s, b);
    let r = index_of(s, b);
    if r < n {
        assert(s[r] != b);
    } else if r > n {
        assert(s[n] != b);
    }
}

/// The place of the first `b` in `s`, or the length of `s`.
pub fn find_byte(s: &[u8], b: u8) -> (n: usize)
    ensures
        n == index_of(s@, b),
{
    let mut i: usize = 0;
    while i < s.len() && s[i] != b
        invariant
            i <= s.len(),
            forall|j: int| 0 <= j < i ==> #[trigger] s@[j] != b,
        decreases s.len() - i,
    {
        i += 1;
    }
    proof {
        lemma_index_of_is(s@, b, i as int);
    }
    i
}

/// The parts of `cur` followed by `s` between occurrences of `sep`,
/// where `cur` is the part read so far. There is always at least one part.
pub open spec fn split_on(s: Seq<u8>, sep: u8, cur: Seq<u8>) -> Seq<Seq<u8>>
    decreases s.len(),
{
    if s.len() == 0 {
        seq![cur]
    } else if s[0] == sep {
        seq![cur] + split_on(s.drop_first(), sep, seq![])
    } else {
        split_on(s.drop_first(), sep, cur.push(s[0]))
    }
}

/// Splitting gives at least one part.
pub proof fn lemma_split_on_some(s: Seq<u8>, sep: u8, cur: Seq<u8>)
    ensures
        split_on(s, sep, cur).len() > 0,
    decreases s.len(),
{
    if s.len() > 0 && s[0] != sep {
        lemma_split_on_some(s.drop_first(), sep, cur.push(s[0]));
    }
}

/// Whether `b` does not occur in `s`.
pub open spec fn lacks(s: Seq<u8>, b: u8) -> bool {
    forall|i: int| 0 <= i < s.len() ==> #[trigger] s[i] != b
}

/// Bytes other than the separator extend the part being read.
pub proof fn lemma_split_on_part(w: Seq<u8>, rest: Seq<u8>, sep: u8, cur: Seq<u8>)
    requires
        lacks(w, sep),
    ensures
        split_on(w + rest, sep, cur) == split_on(rest, sep, cur + w),
    decreases w.len(),
{
    if w.len() == 0 {
        assert(w + rest =~= rest);
        assert(cur + w =~= cur);
    } else {
        assert((w + rest).drop_first() =~= w.drop_first() + rest);
        assert(w[0] != sep);
        lemma_split_on_part(w.drop_first(), rest, sep, cur.push(w[0]));
        assert(cur.push(w[0]) + w.drop_first() =~= cur + w);
    }
}

/// Each part of `parts`, trimmed.
pub open spec fn trim_each(parts: Seq<Seq<u8>>) -> Seq<Seq<u8>> {
    Seq::new(parts.len(), |i: int| trim(parts[i]))
}

/// The parts of `s` between occurrences of `sep`, each trimmed and copied
/// out.
pub fn split_trimmed(s: &[u8], sep: u8) -> (out: Vec<Vec<u8>>)
    ensures
        byte_views(out@) == trim_each(split_on(s@, sep, seq![])),
{
    let mut out: Vec<Vec<u8>> = Vec::new();
    let mut cur: Vec<u8> = Vec::new();
    let ghost mut done: Seq<Seq<u8>> = seq![];
    let mut i: usize = 0;
    assert(s@.skip(0) =~= s@);
    assert(done + split_on(s@, sep, cur@) =~= split_on(s@, sep, cur@));
    while i < s.len()
        invariant
            i <= s.len(),
            done.len() == out@.len(),
            forall|j: int| 0 <= j < out@.len() ==> (#[trigger] out@[j])@ == trim(done[j]),
            split_on(s@, sep, seq![]) == done + split_on(s@.skip(i as int), sep, cur@),
        decreases s.len() - i,
    {
        assert(s@.skip(i as int).drop_first() =~= s@.skip(i + 1));
        let b = s[i];
        if b == sep {
            proof {
                assert(done + (seq![cur@] + split_on(s@.skip(i + 1), sep, seq![])) =~= done.push(
                    cur@,
                ) + split_on(s@.skip(i + 1), sep, seq![]));
                done = done.push(cur@);
            }
            out.push(trimmed(cur.as_slice()));
            cur = Vec::new();
        } else {
            cur.push(b);
        }
        i += 1;
    }
    proof {
        assert(done + seq![cur@] =~= done.push(cur@));
        done = done.push(cur@);
    }
    out.push(trimmed(cur.as_slice()));
    assert(byte_views(out@) =~= trim_each(done));
    out
}

/// Whether `b` is one of the digits `0` to `9`.
pub open spec fn is_digit(b: u8) -> bool {
    48 <= b && b <= 57
}

/// Whether `s` holds digits only.
pub open spec fn all_digits(s: Seq<u8>) -> bool {
    forall|i: int| 0 <= i < s.len() ==> is_digit(#[trigger] s[i])
}

/// The number that the digits of `s` write in base ten.
pub open spec fn digits_value(s: Seq<u8>) -> nat
    decreases s.len(),
{
    if s.len() == 0 {
        0
    } else {
        digits_value(s.drop_last()) * 10 + (s.last() - 48) as nat
    }
}

/// The digits of a decimal number: `s` itself, or `s` without a leading
/// plus sign.
pub open spec fn unsigned_digits(s: Seq<u8>) -> Seq<u8> {
    if s.len() > 0 && s[0] == 43 {
        s.drop_first()
    } else {
        s
    }
}

/// The number that `s` writes in base ten, if `s` is an optional plus
/// sign followed by one or more digits and the number is at most `max`.
pub open spec fn parse_decimal(s: Seq<u8>, max: nat) -> Option<nat> {
    let d = unsigned_digits(s);
    if d.len() > 0 && all_digits(d) && digits_value(d) <= max {
        Some(digits_value(d))
    } else {
        None
    }
}

/// More digits never write a smaller number.
pub proof fn lemma_digits_value_grows(s: Seq<u8>, n: int)
    requires
        all_digits(s),
        0 <= n <= s.len(),
    ensures
        digits_value(s.take(n)) <= digits_value(s),
    decreases s.len() - n,
{
    if n < s.len() {
        lemma_digits_value_grows(s, n + 1);
        assert(s.take(n + 1).drop_last() =~= s.take(n));
        assert(is_digit(s[n]));
    } else {
        assert(s.take(n) =~= s);
    }
}

/// Reads a decimal number of at most `max` from `s`.
pub fn read_decimal(s: &[u8], max: u32) -> (r: Option<u32>)
    ensures
        r matches Some(v) ==> parse_decimal(s@, max as nat) == Some(v as nat),
        r is None ==> parse_decimal(s@, max as nat) is None,
{
    let start: usize = if s.len() > 0 && s[0] == 43 {
        1
    } else {
        0
    };
    let ghost d = unsigned_digits(s@);
    assert(d =~= s@.skip(start as int));
    if start == s.len() {
        return None;
    }
    let mut acc: u64 = 0;
    let mut i: usize = start;
    assert(d.take(0) =~= Seq::<u8>::empty());
    while i < s.len()
        invariant
            start <= i <= s.len(),
            d == s@.skip(start as int),
            d == unsigned_digits(s@),
            acc == digits_value(d.take(i - start)),
            acc <= max,
            forall|j: int| 0 <= j < i - start ==> is_digit(#[trigger] d[j]),
        decreases s.len() - i,
    {
        let b = s[i];
        if b < 48 || b > 57 {
            assert(!is_digit(d[i - start]));
            return None;
        }
        assert(d.take(i - start + 1).drop_last() =~= d.take(i - start));
        acc = acc * 10 + (b - 48) as u64;
        i += 1;
        if acc > max as u64 {
            proof {
                if all_digits(d) {
                    lemma_digits_value_grows(d, i - start);
                }
            }
            return None;
        }
    }
    assert(d.take(i - start) =~= d);
    Some(acc as u32)
}

/// The digits that write `n` in base ten, without leading zeros.
pub open spec fn decimal(n: nat) -> Seq<u8>
    decreases n,
{
    if n < 10 {
        seq![(48 + n) as u8]
    } else {
        decimal(n / 10).push((48 + n % 10) as u8)
    }
}

/// Reading back the digits of a number gives the number.
pub proof fn lemma_decimal_reads_back(n: nat, max: nat)
    requires
        n <= max,
    ensures
        decimal(n).len() > 0,
        all_digits(decimal(n)),
        digits_value(decimal(n)) == n,
        parse_decimal(decimal(n), max) == Some(n),
    decreases n,
{
    if n < 10 {
        let s = decimal(n);
        assert(s.drop_last() =~= Seq::<u8>::empty());
        assert(digits_value(s.drop_last()) == 0);
    } else {
        lemma_decimal_reads_back(n / 10, max);
        let s = decimal(n);
        assert(s.drop_last() =~= decimal(n / 10));
        assert(s[0] == decimal(n / 10)[0]);
    }
    assert(is_digit(decimal(n)[0]));
}

/// Appends the decimal digits of `n` to `out`.
pub fn push_decimal(out: &mut Vec<u8>, n: u64)
    ensures
        final(out)@ == old(out)@ + decimal(n as nat),
    decreases n,
{
    if n >= 10 {
        push_decimal(out, n / 10);
    }
    let digit: u8 = (n % 10) as u8;
    out.push(48 + digit);
    proof {
        if n >= 10 {
            assert(old(out)@ + decimal(n as nat) =~= (old(out)@ + decimal((n / 10) as nat)).push(
                (48 + n % 10) as u8,
            ));
        } else {
            assert(old(out)@ + decimal(n as nat) =~= old(out)@.push((48 + n) as u8));
        }
    }
}

/// A text of ASCII characters is encoded byte for character.
pub proof fn lemma_ascii_text(chars: Seq<char>, bytes: Seq<u8>)
    requires
        chars.len() == bytes.len(),
        forall|i: int| 0 <= i < chars.len() ==> #[trigger] chars[i] == bytes[i] as char,
        forall|i: int| 0 <= i < bytes.len() ==> (#[trigger] bytes[i]) < 128,
    ensures
        encode_utf8(chars) == bytes,
{
    assert(is_ascii_chars(chars)) by {
        assert forall|i: int| 0 <= i < chars.len() implies '\0' <= #[trigger] chars[i]
            <= '\u{7f}' by {
            assert(bytes[i] < 128);
        }
    }
    is_ascii_chars_encode_utf8(chars);
    assert(encode_utf8(chars) =~= bytes);
}

/// Bytes below 128 are valid UTF-8.
pub proof fn lemma_ascii_is_utf8(bytes: Seq<u8>)
    requires
        forall|i: int| 0 <= i < bytes.len() ==> (#[trigger] bytes[i]) < 128,
    ensures
        valid_utf8(bytes),
{
    let chars = Seq::new(bytes.len(), |i: int| bytes[i] as char);
    lemma_ascii_text(chars, bytes);
    encode_utf8_valid_utf8(chars);
}

/// Whether `s` holds whitespace only.
pub open spec fn all_space(s: Seq<u8>) -> bool {
    forall|i: int| 0 <= i < s.len() ==> is_space(#[trigger] s[i])
}

/// A word followed by a whitespace byte is one token, and the tokens of
/// the rest follow it.
pub proof fn lemma_tokens_word(w: Seq<u8>, b: u8, rest: Seq<u8>)
    requires
        no_space(w),
        w.len() > 0,
        is_space(b),
    ensures
        tokens(w + seq![b] + rest) == seq![w] + tokens(rest),
{
    assert(w + seq![b] + rest =~= w + (seq![b] + rest));
    lemma_split_words_word(w, seq![b] + rest, seq![]);
    assert(Seq::<u8>::empty() + w =~= w);
    lemma_split_words_space(b, rest, w);
}

/// Whitespace alone holds no token.
pub proof fn lemma_tokens_of_space(s: Seq<u8>)
    requires
        all_space(s),
    ensures
        tokens(s) == Seq::<Seq<u8>>::empty(),
    decreases s.len(),
{
    if s.len() > 0 {
        assert(is_space(s[0]));
        lemma_tokens_of_space(s.drop_first());
        assert(flush(Seq::<u8>::empty()) + tokens(s.drop_first()) =~= Seq::<Seq<u8>>::empty());
    }
}

/// Whitespace in front of and behind a text does not change what is left
/// of it after trimming.
pub proof fn lemma_trim_padded(front: Seq<u8>, s: Seq<u8>, back: Seq<u8>)
    requires
        all_space(front),
        all_space(back),
    ensures
        trim(front + s + back) == trim(s),
{
    assert(front + s + back =~= front + (s + back));
    lemma_trim_start_skips(front, s + back);
    lemma_trim_back(s, back);
}

/// Whitespace behind a text does not change what is left of it after
/// trimming.
pub proof fn lemma_trim_back(s: Seq<u8>, back: Seq<u8>)
    requires
        all_space(back),
    ensures
        trim(s + back) == trim(s),
    decreases s.len(),
{
    if s.len() == 0 {
        assert(s + back =~= back);
        lemma_trim_start_skips(back, seq![]);
        assert(back + Seq::<u8>::empty() =~= back);
    } else if is_space(s[0]) {
        assert((s + back).drop_first() =~= s.drop_first() + back);
        lemma_trim_back(s.drop_first(), back);
    } else {
        lemma_trim_end_skips(s, back);
    }
}

/// What is trimmed off the end of a text is whitespace.
pub proof fn lemma_trim_end_parts(s: Seq<u8>)
    ensures
        trim_end(s).len() <= s.len(),
        trim_end(s) == s.take(trim_end(s).len() as int),
        all_space(s.skip(trim_end(s).len() as int)),
    decreases s.len(),
{
    if s.len() > 0 && is_space(s.last()) {
        let t = s.drop_last();
        lemma_trim_end_parts(t);
        let n = trim_end(t).len() as int;
        assert(t.take(n) =~= s.take(n));
        assert forall|i: int| 0 <= i < s.skip(n).len() implies is_space(
            #[trigger] s.skip(n)[i],
        ) by {
            if i < t.skip(n).len() {
                assert(s.skip(n)[i] == t.skip(n)[i]);
            }
        }
    } else {
        assert(s.take(s.len() as int) =~= s);
    }
}

/// Whitespace behind a text becomes part of its last part.
pub proof fn lemma_split_on_back(s: Seq<u8>, back: Seq<u8>, sep: u8, cur: Seq<u8>)
    requires
        all_space(back),
        !is_space(sep),
    ensures
        split_on(s, sep, cur).len() > 0,
        split_on(s + back, sep, cur) == split_on(s, sep, cur).drop_last().push(
            split_on(s, sep, cur).last() + back,
        ),
    decreases s.len(),
{
    lemma_split_on_some(s, sep, cur);
    if s.len() == 0 {
        assert(s + back =~= back + Seq::<u8>::empty());
        assert(lacks(back, sep)) by {
            assert forall|i: int| 0 <= i < back.len() implies #[trigger] back[i] != sep by {
                assert(is_space(back[i]));
            }
        }
        lemma_split_on_part(back, seq![], sep, cur);
        assert(split_on(s, sep, cur).drop_last().push(cur + back) =~= seq![cur + back]);
    } else if s[0] == sep {
        assert((s + back).drop_first() =~= s.drop_first() + back);
        lemma_split_on_back(s.drop_first(), back, sep, seq![]);
        let tail = split_on(s.drop_first(), sep, seq![]);
        assert((seq![cur] + tail).drop_last().push(tail.last() + back) =~= seq![cur]
            + tail.drop_last().push(tail.last() + back));
    } else {
        assert((s + back).drop_first() =~= s.drop_first() + back);
        lemma_split_on_back(s.drop_first(), back, sep, cur.push(s[0]));
    }
}

/// Trimming a text before it is split changes none of its trimmed parts,
/// where the text does not start with whitespace.
pub proof fn lemma_split_of_trimmed(s: Seq<u8>, sep: u8)
    requires
        !is_space(sep),
        s.len() > 0 ==> !is_space(s[0]),
    ensures
        trim_each(split_on(trim(s), sep, seq![])) == trim_each(split_on(s, sep, seq![])),
{
    lemma_trim_end_parts(s);
    let kept = trim_end(s);
    let back = s.skip(kept.len() as int);
    assert(s =~= kept + back);
    lemma_split_on_back(kept, back, sep, seq![]);
    let parts = split_on(kept, sep, seq![]);
    lemma_trim_back(parts.last(), back);
    assert(trim_each(split_on(kept + back, sep, seq![])) =~= trim_each(parts));
}

} // verus!
