//! The framing of requests: where a request ends, what it asks for, and what is answered.
use vstd::prelude::*;
use vstd::slice::slice_subrange;
use vstd::string::StringSliceAdditionalSpecFns;
use vstd::utf8::encode_utf8;

use crate::bytes::{
    bytes_eq, digit, find_bytes, lemma_position_of, lemma_position_of_byte,
    lemma_position_prefix, lemma_position_stable, memchr, position_of, position_of_byte,
    CR, DIGIT_0, FF, LF, SPACE, TAB, UPPER_A, UPPER_Z,
};
use crate::iso::{digits_value, lemma_digits_value_nonneg};
use crate::json::{after_digits, lemma_after_digits};
use crate::response::{fraud_http, verdict_body, verdict_message, NOT_FOUND, READY};
use crate::types::TxInput;

verus! {

/// How many bytes of requests a connection holds at most, and the longest body.
pub const READ_BUF: usize = 8192;

/// The blank line that ends the head of a request.
pub const HEAD_END: &'static str = "\r\n\r\n";

pub const LINE_END: &'static str = "\r\n";

pub const LENGTH_NAME: &'static str = "content-length:";

pub open spec fn is_space(b: u8) -> bool {
    b == SPACE || b == TAB || b == LF || b == FF || b == CR
}

/// A capital letter becomes a small one.
pub open spec fn lowered(b: u8) -> u8 {
    if UPPER_A <= b <= UPPER_Z {
        (b + 0x20) as u8
    } else {
        b
    }
}

/// Without the space behind it.
pub open spec fn trimmed_end(s: Seq<u8>) -> Seq<u8>
    decreases s.len(),
{
    if s.len() > 0 && is_space(s.last()) {
        trimmed_end(s.drop_last())
    } else {
        s
    }
}

/// Without the space before and behind it.
pub open spec fn trimmed(s: Seq<u8>) -> Seq<u8>
    decreases s.len(),
{
    if s.len() > 0 && is_space(s[0]) {
        trimmed(s.drop_first())
    } else {
        trimmed_end(s)
    }
}

/// A line that states the length of the body.
pub open spec fn states_length(line: Seq<u8>) -> bool {
    let name = LENGTH_NAME.spec_bytes();
    line.len() >= name.len() && forall|k: int|
        0 <= k < name.len() ==> lowered(#[trigger] line[k]) == name[k]
}

/// The length that such a line states, or the longest that is accepted.
pub open spec fn length_in(line: Seq<u8>) -> int {
    let value = trimmed(line.skip(LENGTH_NAME.spec_bytes().len() as int));
    let n = digits_value(value.take(after_digits(value, 0)));
    if n < READ_BUF {
        n
    } else {
        READ_BUF as int
    }
}

/// The end of the line that starts at `pos`.
pub open spec fn line_end(text: Seq<u8>, pos: int) -> int
    decreases text.len() - pos,
{
    if 0 <= pos < text.len() && text[pos] != LF {
        line_end(text, pos + 1)
    } else {
        pos
    }
}

proof fn lemma_line_end(text: Seq<u8>, pos: int)
    requires
        0 <= pos <= text.len(),
    ensures
        pos <= line_end(text, pos) <= text.len(),
        line_end(text, pos) < text.len() ==> text[line_end(text, pos)] == LF,
    decreases text.len() - pos,
{
    if pos < text.len() && text[pos] != LF {
        lemma_line_end(text, pos + 1);
    }
}

/// The length that the first line from `pos` on that states one does state.
pub open spec fn stated_length(headers: Seq<u8>, pos: int) -> Option<int>
    decreases headers.len() - pos,
{
    if 0 <= pos <= headers.len() {
        let end = line_end(headers, pos);
        let line = trimmed(headers.subrange(pos, end));
        if states_length(line) {
            Some(length_in(line))
        } else if pos <= end < headers.len() {
            stated_length(headers, end + 1)
        } else {
            None
        }
    } else {
        None
    }
}

/// A request: what it asks, where, and with what.
pub struct RequestText {
    pub method: Seq<u8>,
    pub path: Seq<u8>,
    pub body: Seq<u8>,
}

/// The request at the start of `buf` and the number of bytes that it takes, if it is all there.
/// Its head ends at the first blank line and holds at least one line besides the request line;
/// a request line with fewer than two spaces is none.
pub open spec fn request(buf: Seq<u8>) -> Option<(RequestText, int)> {
    match position_of(buf, HEAD_END.spec_bytes(), 0) {
        None => None,
        Some(head_end) => {
            let head = buf.take(head_end);
            match position_of(head, LINE_END.spec_bytes(), 0) {
                None => None,
                Some(end) => {
                    let line = buf.take(end);
                    match position_of_byte(line, SPACE, 0) {
                        None => None,
                        Some(first) => match position_of_byte(line, SPACE, first + 1) {
                            None => None,
                            Some(second) => {
                                let start = head_end + HEAD_END.spec_bytes().len();
                                let length = match stated_length(head, 0) {
                                    Some(n) => n,
                                    None => 0,
                                };
                                if buf.len() < start + length {
                                    None
                                } else {
                                    Some(
                                        (
                                            RequestText {
                                                method: line.take(first),
                                                path: line.subrange(first + 1, second),
                                                body: buf.subrange(start, start + length),
                                            },
                                            start + length,
                                        ),
                                    )
                                }
                            },
                        },
                    }
                },
            }
        },
    }
}

/// Whether `b` is ASCII whitespace.
pub fn space(b: u8) -> (r: bool)
    ensures
        r == is_space(b),
{
    b == SPACE || b == TAB || b == LF || b == FF || b == CR
}

/// The slice without the space before and behind it.
pub fn trim_ascii(s: &[u8]) -> (r: &[u8])
    ensures
        r@ == trimmed(s@),
{
    let mut start: usize = 0;
    let len: usize = s.len();
    assert(s@.skip(0) =~= s@);
    while start < len && space(s[start])
        invariant
            start <= len == s@.len(),
            trimmed(s@) == trimmed(s@.skip(start as int)),
        decreases len - start,
    {
        assert(s@.skip(start as int).drop_first() =~= s@.skip(start + 1));
        start += 1;
    }
    let mut end: usize = len;
    assert(s@.skip(start as int) =~= s@.subrange(start as int, end as int));
    while end > start && space(s[end - 1])
        invariant
            start <= end <= len == s@.len(),
            trimmed(s@) == trimmed_end(s@.subrange(start as int, end as int)),
        decreases end - start,
    {
        assert(s@.subrange(start as int, end as int).drop_last() =~= s@.subrange(
            start as int,
            end - 1,
        ));
        end -= 1;
    }
    slice_subrange(s, start, end)
}

proof fn lemma_length_name()
    ensures
        LENGTH_NAME.spec_bytes().len() == 15,
{
    reveal_strlit("content-length:");
    assert("content-length:".is_ascii());
}

/// How long the marks of a head are.
pub proof fn lemma_ends()
    ensures
        HEAD_END.spec_bytes().len() == 4,
        LINE_END.spec_bytes().len() == 2,
{
    reveal_strlit("\r\n\r\n");
    assert("\r\n\r\n".is_ascii());
    reveal_strlit("\r\n");
    assert("\r\n".is_ascii());
}

/// A capital letter becomes a small one.
pub fn lower(b: u8) -> (r: u8)
    ensures
        r == lowered(b),
{
    if UPPER_A <= b && b <= UPPER_Z {
        b + 0x20
    } else {
        b
    }
}

/// Whether a line states the length of the body.
fn is_length_line(line: &[u8]) -> (r: bool)
    ensures
        r == states_length(line@),
{
    let name: &[u8] = LENGTH_NAME.as_bytes();
    if line.len() < name.len() {
        return false;
    }
    let mut i: usize = 0;
    while i < name.len()
        invariant
            i <= name@.len() <= line@.len(),
            name@ == LENGTH_NAME.spec_bytes(),
            forall|k: int| 0 <= k < i ==> lowered(#[trigger] line@[k]) == name@[k],
        decreases name@.len() - i,
    {
        if lower(line[i]) != name[i] {
            return false;
        }
        i += 1;
    }
    true
}

/// The length that a line which states one states.
fn length_value(line: &[u8]) -> (r: usize)
    requires
        states_length(line@),
    ensures
        r == length_in(line@),
{
    proof {
        lemma_length_name();
    }
    let len: usize = line.len();
    let name_len: usize = LENGTH_NAME.as_bytes().len();
    let value: &[u8] = trim_ascii(slice_subrange(line, name_len, len));
    assert(line@.subrange(name_len as int, len as int) =~= line@.skip(name_len as int));
    let mut n: usize = 0;
    let mut i: usize = 0;
    assert(value@.take(0) =~= Seq::<u8>::empty());
    while i < value.len() && digit(value[i])
        invariant
            i <= value@.len(),
            after_digits(value@, 0) == after_digits(value@, i as int),
            0 <= digits_value(value@.take(i as int)),
            n == if digits_value(value@.take(i as int)) < READ_BUF {
                digits_value(value@.take(i as int))
            } else {
                READ_BUF as int
            },
        decreases value@.len() - i,
    {
        let d: usize = (value[i] - DIGIT_0) as usize;
        assert(value@.take(i + 1).drop_last() =~= value@.take(i as int));
        assert(value@.take(i + 1).last() == value@[i as int]);
        n = n * 10 + d;
        if n > READ_BUF {
            n = READ_BUF;
        }
        i += 1;
    }
    n
}

/// The length of the body that the headers state: the first line that states one counts.
pub fn content_length(headers: &[u8]) -> (r: Option<usize>)
    ensures
        match r {
            Some(n) => stated_length(headers@, 0) == Some(n as int),
            None => stated_length(headers@, 0) is None,
        },
        r matches Some(n) ==> n <= READ_BUF,
{
    let len: usize = headers.len();
    let mut pos: usize = 0;
    loop
        invariant
            pos <= len == headers@.len(),
            stated_length(headers@, 0) == stated_length(headers@, pos as int),
        decreases len - pos,
    {
        let mut end: usize = pos;
        while end < len && headers[end] != LF
            invariant
                pos <= end <= len == headers@.len(),
                line_end(headers@, pos as int) == line_end(headers@, end as int),
            decreases len - end,
        {
            end += 1;
        }
        let line: &[u8] = trim_ascii(slice_subrange(headers, pos, end));
        if is_length_line(line) {
            return Some(length_value(line));
        }
        if end == len {
            return None;
        }
        pos = end + 1;
    }
}

/// A request, as slices of the bytes it was read from.
pub struct ParsedHttp<'a> {
    pub method: &'a [u8],
    pub path: &'a [u8],
    pub body: &'a [u8],
}

impl<'a> View for ParsedHttp<'a> {
    type V = RequestText;

    open spec fn view(&self) -> RequestText {
        RequestText { method: self.method@, path: self.path@, body: self.body@ }
    }
}

/// The request at the start of `buf`.
pub fn parse_http(buf: &[u8]) -> (r: Option<ParsedHttp<'_>>)
    ensures
        match r {
            Some(p) => request(buf@) matches Some((text, _)) && p@ == text,
            None => request(buf@) is None,
        },
{
    match parse_http_consumed(buf) {
        Some((p, _)) => Some(p),
        None => None,
    }
}

/// The request at the start of `buf`, with the number of bytes that it takes.
pub fn parse_http_consumed(buf: &[u8]) -> (r: Option<(ParsedHttp<'_>, usize)>)
    ensures
        match r {
            Some((p, consumed)) => request(buf@) == Some((p@, consumed as int)),
            None => request(buf@) is None,
        },
{
    proof {
        lemma_ends();
    }
    let head_found: Option<usize> = find_bytes(buf, HEAD_END.as_bytes());
    proof {
        lemma_position_of(buf@, HEAD_END.spec_bytes(), 0, head_found);
    }
    let head_end: usize = match head_found {
        Some(i) => i,
        None => return None,
    };
    let head: &[u8] = slice_subrange(buf, 0, head_end);
    assert(head@ =~= buf@.take(head_end as int));
    let line_found: Option<usize> = find_bytes(head, LINE_END.as_bytes());
    proof {
        lemma_position_of(head@, LINE_END.spec_bytes(), 0, line_found);
    }
    let end: usize = match line_found {
        Some(i) => i,
        None => return None,
    };
    let line: &[u8] = slice_subrange(buf, 0, end);
    assert(line@ =~= buf@.take(end as int));
    let first_found: Option<usize> = memchr(line, SPACE);
    proof {
        assert(line@.skip(0) =~= line@);
        lemma_position_of_byte(line@, SPACE, 0, 0, first_found);
    }
    let first: usize = match first_found {
        Some(i) => i,
        None => return None,
    };
    let rest: &[u8] = slice_subrange(line, first + 1, end);
    assert(rest@ =~= line@.skip(first + 1));
    let second_found: Option<usize> = memchr(rest, SPACE);
    proof {
        lemma_position_of_byte(line@, SPACE, first + 1, first + 1, second_found);
    }
    let second: usize = match second_found {
        Some(i) => first + 1 + i,
        None => return None,
    };
    let length: usize = match content_length(head) {
        Some(n) => n,
        None => 0,
    };
    let len: usize = buf.len();
    assert(head_end + 4 <= len);
    let start: usize = head_end + 4;
    if len - start < length {
        return None;
    }
    let method: &[u8] = slice_subrange(line, 0, first);
    assert(method@ =~= line@.take(first as int));
    Some(
        (
            ParsedHttp {
                method,
                path: slice_subrange(line, first + 1, second),
                body: slice_subrange(buf, start, start + length),
            },
            start + length,
        ),
    )
}

/// A request that is all there stays the same request whatever follows it.
pub proof fn law_request_stable(buf: Seq<u8>, more: Seq<u8>)
    requires
        request(buf) is Some,
    ensures
        request(buf + more) == request(buf),
{
    let all = buf + more;
    lemma_position_stable(buf, more, HEAD_END.spec_bytes(), 0);
    let head_end = position_of(buf, HEAD_END.spec_bytes(), 0)->0;
    let head = buf.take(head_end);
    assert(all.take(head_end) =~= head);
    lemma_position_stable(head, Seq::empty(), LINE_END.spec_bytes(), 0);
    let end = position_of(head, LINE_END.spec_bytes(), 0)->0;
    assert(all.take(end) =~= buf.take(end));
    let start = head_end + HEAD_END.spec_bytes().len();
    let (_, consumed) = request(buf)->0;
    lemma_stated_length(head, 0);
    assert(all.subrange(start, consumed) =~= buf.subrange(start, consumed));
}

/// A request takes bytes that are there, at least those of the blank line, and its body ends it.
pub proof fn law_request_extent(buf: Seq<u8>)
    requires
        request(buf) is Some,
    ensures
        ({
            let (text, consumed) = request(buf)->0;
            &&& HEAD_END.spec_bytes().len() <= consumed <= buf.len()
            &&& text.body == buf.subrange(consumed - text.body.len(), consumed)
            &&& text.body.len() <= READ_BUF
        }),
{
    lemma_position_stable(buf, Seq::empty(), HEAD_END.spec_bytes(), 0);
    let head_end = position_of(buf, HEAD_END.spec_bytes(), 0)->0;
    let head = buf.take(head_end);
    lemma_stated_length(head, 0);
}

/// A request is read from the bytes that it takes alone.
pub proof fn law_request_self_contained(buf: Seq<u8>)
    requires
        request(buf) is Some,
    ensures
        request(buf.take((request(buf)->0).1)) == request(buf),
{
    law_request_extent(buf);
    let (text, consumed) = request(buf)->0;
    let head_end = position_of(buf, HEAD_END.spec_bytes(), 0)->0;
    let head = buf.take(head_end);
    lemma_stated_length(head, 0);
    lemma_position_stable(buf, Seq::empty(), HEAD_END.spec_bytes(), 0);
    lemma_position_prefix(buf, consumed, HEAD_END.spec_bytes(), 0);
    let own = buf.take(consumed);
    assert(own.take(head_end) =~= head);
    lemma_position_stable(head, Seq::empty(), LINE_END.spec_bytes(), 0);
    let end = position_of(head, LINE_END.spec_bytes(), 0)->0;
    assert(own.take(end) =~= buf.take(end));
    assert(own.subrange(consumed - text.body.len(), consumed) =~= text.body);
}

/// Requests sent one behind the other are read one after the other.
pub proof fn law_pipelined(first: Seq<u8>, rest: Seq<u8>)
    requires
        request(first) matches Some((_, consumed)) && consumed == first.len(),
    ensures
        request(first + rest) == request(first),
        (first + rest).skip(first.len() as int) == rest,
{
    law_request_stable(first, rest);
    assert((first + rest).skip(first.len() as int) =~= rest);
}

proof fn lemma_stated_length(headers: Seq<u8>, pos: int)
    ensures
        stated_length(headers, pos) matches Some(n) ==> 0 <= n <= READ_BUF,
    decreases headers.len() - pos,
{
    if 0 <= pos <= headers.len() {
        let end = line_end(headers, pos);
        let line = trimmed(headers.subrange(pos, end));
        if states_length(line) {
            let value = trimmed(line.skip(LENGTH_NAME.spec_bytes().len() as int));
            lemma_after_digits(value, 0);
            lemma_digits_value_nonneg(value.take(after_digits(value, 0)));
        } else if pos <= end < headers.len() {
            lemma_stated_length(headers, end + 1);
        }
    }
}

/// What a request asks for.
pub enum Route<'a> {
    /// Whether the service is ready.
    Ready,
    /// The verdict on a transaction.
    Score(&'a [u8]),
    /// Something else, with a body.
    Refused,
    /// Anything else.
    Unknown,
}

/// What a request asks for; a verdict is asked on its body.
pub enum RouteText {
    Ready,
    Score(Seq<u8>),
    Refused,
    Unknown,
}

impl<'a> View for Route<'a> {
    type V = RouteText;

    open spec fn view(&self) -> RouteText {
        match self {
            Route::Ready => RouteText::Ready,
            Route::Score(body) => RouteText::Score(body@),
            Route::Refused => RouteText::Refused,
            Route::Unknown => RouteText::Unknown,
        }
    }
}

/// What a request asks for, by its method and path.
pub open spec fn route_of(text: RequestText) -> RouteText {
    if text.method == "GET".spec_bytes() && text.path == "/ready".spec_bytes() {
        RouteText::Ready
    } else if text.method == "POST".spec_bytes() {
        if text.path == "/fraud-score".spec_bytes() {
            RouteText::Score(text.body)
        } else {
            RouteText::Refused
        }
    } else {
        RouteText::Unknown
    }
}

/// What a request asks for.
pub fn route<'a>(parsed: &ParsedHttp<'a>) -> (r: Route<'a>)
    ensures
        r@ == route_of(parsed@),
{
    if bytes_eq(parsed.method, "GET".as_bytes()) && bytes_eq(parsed.path, "/ready".as_bytes()) {
        Route::Ready
    } else if bytes_eq(parsed.method, "POST".as_bytes()) {
        if bytes_eq(parsed.path, "/fraud-score".as_bytes()) {
            Route::Score(parsed.body)
        } else {
            Route::Refused
        }
    } else {
        Route::Unknown
    }
}

/// The score on a transaction that got `votes`: five at most, and five if it cannot be used.
pub open spec fn score_of(usable: bool, votes: int) -> int {
    if usable && votes < 5 {
        votes
    } else {
        5
    }
}

/// The score on a transaction that got `votes`. One that cannot be used needs none.
pub fn score(tx: &TxInput, votes: usize) -> (r: usize)
    ensures
        r == score_of(tx.parse_ok, votes as int),
        r <= 5,
{
    if tx.parse_ok && votes < 5 {
        votes
    } else {
        5
    }
}

/// The message that answers a request. What is refused, and a probe before the service is
/// ready, get the verdict of five votes.
pub open spec fn answer(route: RouteText, ready: bool, score: int) -> Seq<u8> {
    match route {
        RouteText::Ready => if ready {
            READY.spec_bytes()
        } else {
            encode_utf8(verdict_message(5))
        },
        RouteText::Score(_) => encode_utf8(verdict_message(score)),
        RouteText::Refused => encode_utf8(verdict_message(5)),
        RouteText::Unknown => NOT_FOUND.spec_bytes(),
    }
}

/// The response to a request; `score` is the one on the transaction that it is about, if it
/// is about one.
pub fn respond(route: &Route<'_>, ready: bool, score: usize) -> (r: &'static [u8])
    ensures
        r@ == answer(route@, ready, score as int),
{
    match route {
        Route::Ready => if ready {
            READY.as_bytes()
        } else {
            fraud_http(5)
        },
        Route::Score(_) => fraud_http(score),
        Route::Refused => fraud_http(5),
        Route::Unknown => NOT_FOUND.as_bytes(),
    }
}

/// The score on a transaction is the one that its answer gives, and five on one that cannot be
/// used.
pub proof fn law_score_is_answered(body: Seq<u8>, ready: bool, usable: bool, votes: nat)
    ensures
        0 <= score_of(usable, votes as int) <= 5,
        !usable ==> score_of(usable, votes as int) == 5,
        answer(RouteText::Score(body), ready, score_of(usable, votes as int)) == encode_utf8(
            verdict_message(score_of(usable, votes as int)),
        ),
{
}

/// What cannot be served is never approved: a transaction that cannot be used, a request
/// that is refused and a probe before the service is ready all get the verdict of five votes.
pub proof fn law_never_approved_unseen(body: Seq<u8>, ready: bool, votes: int, score: int)
    ensures
        answer(RouteText::Score(body), ready, score_of(false, votes)) == encode_utf8(
            verdict_message(5),
        ),
        answer(RouteText::Refused, ready, score) == encode_utf8(verdict_message(5)),
        answer(RouteText::Ready, false, score) == encode_utf8(verdict_message(5)),
        verdict_body(5) == "{\"approved\":false,\"fraud_score\":1.0}"@,
{
    reveal_strlit("{\"approved\":");
    reveal_strlit("false");
    reveal_strlit(",\"fraud_score\":");
    reveal_strlit("1.0");
    reveal_strlit("}");
    reveal_strlit("{\"approved\":false,\"fraud_score\":1.0}");
    assert(verdict_body(5) =~= "{\"approved\":false,\"fraud_score\":1.0}"@);
}

/// The bytes that a connection has received and not answered yet: the first `len` of `buf`.
pub struct Connection {
    pub buf: Vec<u8>,
    pub len: usize,
}

/// What comes next on a connection.
pub enum Step<'a> {
    /// A request to answer, and the bytes that it takes.
    Answer(Route<'a>, usize),
    /// More bytes are to be read.
    Read,
    /// The connection ends: no request fits.
    Close,
}

/// How a read ended.
pub enum Received {
    /// With that many bytes behind those held; none at the end of the stream.
    Bytes(usize),
    /// Before anything came.
    Interrupted,
    /// With an error.
    Failed,
}

impl Connection {
    pub open spec fn wf(&self) -> bool {
        self.len <= self.buf@.len()
    }

    pub open spec fn pending(&self) -> Seq<u8> {
        self.buf@.take(self.len as int)
    }

    pub fn new() -> (r: Self)
        ensures
            r.wf(),
            r.pending() == Seq::<u8>::empty(),
            r.buf@ == Seq::new(READ_BUF as nat, |i: int| 0u8),
    {
        let mut buf: Vec<u8> = Vec::new();
        while buf.len() < READ_BUF
            invariant
                buf@.len() <= READ_BUF,
                forall|k: int| 0 <= k < buf@.len() ==> buf@[k] == 0,
            decreases READ_BUF - buf@.len(),
        {
            buf.push(0);
        }
        let r = Connection { buf, len: 0 };
        assert(r.pending() =~= Seq::<u8>::empty());
        assert(r.buf@ =~= Seq::new(READ_BUF as nat, |i: int| 0u8));
        r
    }

    /// What comes next: a request that is all there is answered; a connection that is full
    /// without one is closed.
    pub fn next_step(&self) -> (r: Step<'_>)
        requires
            self.wf(),
        ensures
            match r {
                Step::Answer(asked, consumed) => request(self.pending()) matches Some((text, n))
                    && n == consumed && asked@ == route_of(text),
                Step::Read => request(self.pending()) is None && self.len < self.buf@.len(),
                Step::Close => request(self.pending()) is None && self.len == self.buf@.len(),
            },
    {
        let held: &[u8] = slice_subrange(self.buf.as_slice(), 0, self.len);
        assert(held@ =~= self.pending());
        match parse_http_consumed(held) {
            Some((parsed, consumed)) => Step::Answer(route(&parsed), consumed),
            None => if self.len == self.buf.len() {
                Step::Close
            } else {
                Step::Read
            },
        }
    }

    /// Drops the first `consumed` of the bytes held.
    pub fn consume(&mut self, consumed: usize)
        requires
            old(self).wf(),
        ensures
            final(self).wf(),
            final(self).buf@.len() == old(self).buf@.len(),
            final(self).pending() == if consumed >= old(self).len {
                Seq::<u8>::empty()
            } else {
                old(self).pending().skip(consumed as int)
            },
    {
        let ghost before = *self;
        if consumed >= self.len {
            self.len = 0;
        } else {
            let left: usize = self.len - consumed;
            let mut i: usize = 0;
            while i < left
                invariant
                    i <= left,
                    left == before.len - consumed,
                    before.len <= before.buf@.len() == self.buf@.len(),
                    self.len == before.len,
                    forall|k: int| 0 <= k < i ==> self.buf@[k] == before.buf@[consumed + k],
                    forall|k: int| i <= k < self.buf@.len() ==> self.buf@[k] == before.buf@[k],
                decreases left - i,
            {
                let b: u8 = self.buf[consumed + i];
                self.buf[i] = b;
                i += 1;
            }
            self.len = left;
        }
        assert(self.pending() =~= if consumed >= before.len {
            Seq::<u8>::empty()
        } else {
            before.pending().skip(consumed as int)
        });
    }

    /// Takes note of how a read into the free part of the buffer ended, and says whether the
    /// connection stays open.
    pub fn received(&mut self, event: Received) -> (open: bool)
        requires
            old(self).wf(),
            event matches Received::Bytes(n) ==> old(self).len + n <= old(self).buf@.len(),
        ensures
            final(self).wf(),
            final(self).buf@ == old(self).buf@,
            final(self).pending() == old(self).pending() + match event {
                Received::Bytes(n) => old(self).buf@.subrange(
                    old(self).len as int,
                    old(self).len + n,
                ),
                _ => Seq::<u8>::empty(),
            },
            final(self).len == match event {
                Received::Bytes(n) => old(self).len + n,
                _ => old(self).len as int,
            },
            open == match event {
                Received::Bytes(n) => n > 0,
                Received::Interrupted => true,
                Received::Failed => false,
            },
    {
        match event {
            Received::Bytes(n) => {
                let room: usize = self.buf.len();
                assert(self.len + n <= room);
                self.len = self.len + n;
                n > 0
            },
            Received::Interrupted => true,
            Received::Failed => false,
        }
    }
}

} // verus!
