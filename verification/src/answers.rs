//! Which request gets which answer.
use vstd::prelude::*;
use vstd::string::StringSliceAdditionalSpecFns;
use vstd::utf8::encode_utf8;

use crate::decimal::decimal;
use crate::framing::{asks, is_plain, lemma_written_request, lines_say, request_of};
use crate::http::{
    law_request_extent, lemma_ends, request, respond, route, score, Connection, ParsedHttp,
    Received, Route, Step,
};
use crate::response::{fraud_http, share, verdict_body, verdict_message};
use crate::types::TxInput;

verus! {

/// `GET`.
pub open spec fn get_method() -> Seq<u8> {
    seq![0x47u8, 0x45, 0x54]
}

/// `POST`.
pub open spec fn post_method() -> Seq<u8> {
    seq![0x50u8, 0x4f, 0x53, 0x54]
}

/// `/ready`.
pub open spec fn ready_path() -> Seq<u8> {
    seq![0x2fu8, 0x72, 0x65, 0x61, 0x64, 0x79]
}

/// `/fraud-score`.
pub open spec fn score_path() -> Seq<u8> {
    seq![0x2fu8, 0x66, 0x72, 0x61, 0x75, 0x64, 0x2d, 0x73, 0x63, 0x6f, 0x72, 0x65]
}

proof fn lemma_texts()
    ensures
        "GET".spec_bytes() == get_method(),
        "POST".spec_bytes() == post_method(),
        "/ready".spec_bytes() == ready_path(),
        "/fraud-score".spec_bytes() == score_path(),
        get_method() != post_method(),
{
    reveal_strlit("GET");
    assert("GET".is_ascii());
    assert("GET".spec_bytes() =~= get_method());
    reveal_strlit("POST");
    assert("POST".is_ascii());
    assert("POST".spec_bytes() =~= post_method());
    reveal_strlit("/ready");
    assert("/ready".is_ascii());
    assert("/ready".spec_bytes() =~= ready_path());
    reveal_strlit("/fraud-score");
    assert("/fraud-score".is_ascii());
    assert("/fraud-score".spec_bytes() =~= score_path());
    assert(get_method().len() != post_method().len());
}

/// A probe is a `GET` of `/ready`; a verdict is asked by a `POST` to `/fraud-score`, on the body
/// that came with it; any other `POST` is refused, and anything else is unknown.
pub proof fn law_routes(parsed: &ParsedHttp<'_>, r: Route<'_>)
    requires
        call_ensures(route, (parsed,), r),
    ensures
        r is Ready <==> parsed.method@ == get_method() && parsed.path@ == ready_path(),
        r is Score <==> parsed.method@ == post_method() && parsed.path@ == score_path(),
        r matches Route::Score(body) ==> body@ == parsed.body@,
        r is Refused <==> parsed.method@ == post_method() && parsed.path@ != score_path(),
        r is Unknown <==> parsed.method@ != post_method() && !(parsed.method@ == get_method()
            && parsed.path@ == ready_path()),
{
    lemma_texts();
}

/// A transaction that can be used has as many votes as were cast, five at most; one that cannot
/// has five, whatever was cast.
pub proof fn law_score(tx: &TxInput, votes: usize, r: usize)
    requires
        call_ensures(score, (tx, votes), r),
    ensures
        tx.parse_ok && votes <= 5 ==> r == votes,
        votes >= 5 ==> r == 5,
        !tx.parse_ok ==> r == 5,
{
}

/// The head of a response whose body has `length` bytes, a number of two digits.
pub open spec fn response_head(length: int) -> Seq<char> {
    "HTTP/1.1 200 OK\r\nContent-Type: application/json\r\nConnection: keep-alive\r\nContent-Length: "@
        + seq![(0x30 + length / 10) as char, (0x30 + length % 10) as char] + "\r\n\r\n"@
}

/// The verdict approves below three votes; its score is a fifth of the votes, with one place
/// behind the point; and its head announces its length.
pub proof fn law_verdict(votes: usize, r: &[u8])
    requires
        call_ensures(fraud_http, (votes,), r),
    ensures
        votes < 3 ==> r@ == encode_utf8(
            response_head(35) + "{\"approved\":true,\"fraud_score\":"@
                + seq![(0x30 + 2 * votes / 10) as char, '.', (0x30 + 2 * votes % 10) as char, '}'],
        ),
        3 <= votes <= 5 ==> r@ == encode_utf8(
            response_head(36) + "{\"approved\":false,\"fraud_score\":"@
                + seq![(0x30 + 2 * votes / 10) as char, '.', (0x30 + 2 * votes % 10) as char, '}'],
        ),
{
    lemma_verdict_text(votes as int);
}

proof fn lemma_verdict_text(votes: int)
    requires
        0 <= votes,
    ensures
        votes < 3 ==> verdict_message(votes) == response_head(35)
            + "{\"approved\":true,\"fraud_score\":"@
            + seq![(0x30 + 2 * votes / 10) as char, '.', (0x30 + 2 * votes % 10) as char, '}'],
        3 <= votes <= 5 ==> verdict_message(votes) == response_head(36)
            + "{\"approved\":false,\"fraud_score\":"@
            + seq![(0x30 + 2 * votes / 10) as char, '.', (0x30 + 2 * votes % 10) as char, '}'],
{
    reveal_strlit("HTTP/1.1 ");
    reveal_strlit("200 OK");
    reveal_strlit("\r\nContent-Type: application/json\r\nConnection: keep-alive\r\nContent-Length: ");
    reveal_strlit("HTTP/1.1 200 OK\r\nContent-Type: application/json\r\nConnection: keep-alive\r\nContent-Length: ");
    reveal_strlit("\r\n\r\n");
    reveal_strlit("{\"approved\":");
    reveal_strlit("true");
    reveal_strlit("false");
    reveal_strlit(",\"fraud_score\":");
    reveal_strlit("{\"approved\":true,\"fraud_score\":");
    reveal_strlit("{\"approved\":false,\"fraud_score\":");
    reveal_strlit("0.0");
    reveal_strlit("0.2");
    reveal_strlit("0.4");
    reveal_strlit("0.6");
    reveal_strlit("0.8");
    reveal_strlit("1.0");
    reveal_strlit("}");
    reveal_with_fuel(decimal, 3);
    let digits = seq![(0x30 + 2 * votes / 10) as char, '.', (0x30 + 2 * votes % 10) as char];
    if votes <= 5 {
        assert(share(votes) =~= digits);
        assert(verdict_body(votes).len() == if votes < 3 { 35int } else { 36 });
        if votes < 3 {
            assert(verdict_message(votes) =~= response_head(35)
                + "{\"approved\":true,\"fraud_score\":"@ + digits.push('}'));
            assert(digits.push('}') =~= seq![digits[0], '.', digits[2], '}']);
        } else {
            assert(verdict_message(votes) =~= response_head(36)
                + "{\"approved\":false,\"fraud_score\":"@ + digits.push('}'));
            assert(digits.push('}') =~= seq![digits[0], '.', digits[2], '}']);
        }
    }
}

/// More than five votes count as five.
pub proof fn law_verdict_capped(votes: usize, r: &[u8], five: &[u8])
    requires
        call_ensures(fraud_http, (votes,), r),
        call_ensures(fraud_http, (5,), five),
        votes >= 5,
    ensures
        r@ == five@,
{
}

/// The answer to a verdict that was asked for is the verdict on its score; what is refused, and
/// a probe before the service is ready, get the verdict of five votes.
pub proof fn law_answers(
    asked: &Route<'_>,
    ready: bool,
    votes: usize,
    r: &[u8],
    verdict: &[u8],
    worst: &[u8],
)
    requires
        call_ensures(respond, (asked, ready, votes), r),
        call_ensures(fraud_http, (votes,), verdict),
        call_ensures(fraud_http, (5,), worst),
    ensures
        asked is Score ==> r@ == verdict@,
        asked is Refused ==> r@ == worst@,
        asked is Ready && !ready ==> r@ == worst@,
        asked is Ready && ready ==> r@
            == "HTTP/1.1 200 OK\r\nContent-Type: application/json\r\nConnection: keep-alive\r\nContent-Length: 14\r\n\r\n{\"ready\":true}".spec_bytes(),
        asked is Unknown ==> r@
            == "HTTP/1.1 404 Not Found\r\nContent-Type: application/json\r\nConnection: keep-alive\r\nContent-Length: 21\r\n\r\n{\"error\":\"not_found\"}".spec_bytes(),
{
}

/// A connection that holds a written request answers it next, and takes the bytes of it.
pub proof fn law_written_is_answered(
    connection: &Connection,
    lines: Seq<Seq<u8>>,
    method: Seq<u8>,
    path: Seq<u8>,
    version: Seq<u8>,
    body: Seq<u8>,
    more: Seq<u8>,
    r: Step<'_>,
)
    requires
        call_ensures(Connection::next_step, (connection,), r),
        lines.len() >= 2,
        forall|i: int| 0 <= i < lines.len() ==> is_plain(#[trigger] lines[i]),
        asks(lines[0], method, path, version),
        lines_say(lines, body.len() as int),
        connection.pending() == request_of(lines, body) + more,
    ensures
        r matches Step::Answer(asked, consumed) && {
            &&& consumed == request_of(lines, body).len()
            &&& asked is Ready <==> method == get_method() && path == ready_path()
            &&& asked is Score <==> method == post_method() && path == score_path()
            &&& asked matches Route::Score(text) ==> text@ == body
            &&& asked is Refused <==> method == post_method() && path != score_path()
        },
{
    lemma_texts();
    lemma_written_request(
        connection.pending(),
        lines,
        method,
        path,
        version,
        body,
        more,
    );
}

/// A connection without a whole request reads on while it has room, and is closed when it has
/// none.
pub proof fn law_full_is_closed(connection: &Connection, r: Step<'_>)
    requires
        call_ensures(Connection::next_step, (connection,), r),
        connection.wf(),
    ensures
        r is Read ==> connection.len < connection.buf@.len(),
        r is Close ==> connection.len == connection.buf@.len(),
        connection.len < 4 ==> !(r is Answer),
{
    if request(connection.pending()) is Some {
        law_request_extent(connection.pending());
        lemma_ends();
    }
}

/// Taking bytes off a connection leaves those behind them, in their order.
pub proof fn law_consumed(connection: &mut Connection, consumed: usize)
    requires
        call_ensures(Connection::consume, (connection, consumed), ()),
        old(connection).wf(),
    ensures
        consumed <= old(connection).len ==> old(connection).pending() == old(
            connection,
        ).pending().take(consumed as int) + final(connection).pending(),
        consumed > old(connection).len ==> final(connection).len == 0,
        final(connection).buf@.len() == old(connection).buf@.len(),
{
    let before = old(connection).pending();
    let after = final(connection).pending();
    if consumed <= old(connection).len {
        assert(before.skip(consumed as int) =~= after);
        assert(before =~= before.take(consumed as int) + after);
    } else {
        assert(after.len() == 0);
    }
}

/// What was read stands behind what was held; a connection stays open unless its stream ended or
/// failed.
pub proof fn law_received(connection: &mut Connection, event: Received, open: bool)
    requires
        call_ensures(Connection::received, (connection, event), open),
        old(connection).wf(),
        event matches Received::Bytes(n) ==> old(connection).len + n <= old(
            connection,
        ).buf@.len(),
    ensures
        open <==> (event is Interrupted || (event matches Received::Bytes(n) && n > 0)),
        final(connection).pending().take(old(connection).len as int) == old(connection).pending(),
        final(connection).pending().len() == old(connection).len + match event {
            Received::Bytes(n) => n as int,
            _ => 0,
        },
        forall|k: int|
            0 <= k < final(connection).pending().len() ==> #[trigger] final(connection).pending()[k]
                == old(connection).buf@[k],
{
    let before = old(connection).pending();
    let after = final(connection).pending();
    assert(after.take(old(connection).len as int) =~= before);
}

/// A new connection holds nothing and has room for 8192 bytes.
pub proof fn law_new_connection(r: Connection)
    requires
        call_ensures(Connection::new, (), r),
    ensures
        r.pending().len() == 0,
        r.len == 0,
        r.buf@.len() == 8192,
{
    assert(r.pending().len() == r.len);
}

} // verus!
