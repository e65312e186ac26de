//! The responses, each of them a fixed message.
use vstd::prelude::*;
use vstd::utf8::encode_utf8;

use crate::decimal::decimal;

verus! {

pub const READY: &'static str = "HTTP/1.1 200 OK\r\nContent-Type: application/json\r\nConnection: keep-alive\r\nContent-Length: 14\r\n\r\n{\"ready\":true}";

pub const NOT_FOUND: &'static str = "HTTP/1.1 404 Not Found\r\nContent-Type: application/json\r\nConnection: keep-alive\r\nContent-Length: 21\r\n\r\n{\"error\":\"not_found\"}";

const SCORE0: &'static str = "HTTP/1.1 200 OK\r\nContent-Type: application/json\r\nConnection: keep-alive\r\nContent-Length: 35\r\n\r\n{\"approved\":true,\"fraud_score\":0.0}";

const SCORE1: &'static str = "HTTP/1.1 200 OK\r\nContent-Type: application/json\r\nConnection: keep-alive\r\nContent-Length: 35\r\n\r\n{\"approved\":true,\"fraud_score\":0.2}";

const SCORE2: &'static str = "HTTP/1.1 200 OK\r\nContent-Type: application/json\r\nConnection: keep-alive\r\nContent-Length: 35\r\n\r\n{\"approved\":true,\"fraud_score\":0.4}";

const SCORE3: &'static str = "HTTP/1.1 200 OK\r\nContent-Type: application/json\r\nConnection: keep-alive\r\nContent-Length: 36\r\n\r\n{\"approved\":false,\"fraud_score\":0.6}";

const SCORE4: &'static str = "HTTP/1.1 200 OK\r\nContent-Type: application/json\r\nConnection: keep-alive\r\nContent-Length: 36\r\n\r\n{\"approved\":false,\"fraud_score\":0.8}";

const SCORE5: &'static str = "HTTP/1.1 200 OK\r\nContent-Type: application/json\r\nConnection: keep-alive\r\nContent-Length: 36\r\n\r\n{\"approved\":false,\"fraud_score\":1.0}";

/// A message with a JSON body, which announces the length of that body.
pub open spec fn message(status: Seq<char>, body: Seq<char>) -> Seq<char> {
    "HTTP/1.1 "@ + status
        + "\r\nContent-Type: application/json\r\nConnection: keep-alive\r\nContent-Length: "@
        + decimal(body.len()) + "\r\n\r\n"@ + body
}

/// The share of five votes.
pub open spec fn share(votes: int) -> Seq<char> {
    if votes == 0 {
        "0.0"@
    } else if votes == 1 {
        "0.2"@
    } else if votes == 2 {
        "0.4"@
    } else if votes == 3 {
        "0.6"@
    } else if votes == 4 {
        "0.8"@
    } else {
        "1.0"@
    }
}

/// The verdict on a transaction: fewer than three votes of five approve it.
pub open spec fn verdict_body(votes: int) -> Seq<char> {
    "{\"approved\":"@ + (if votes < 3 {
        "true"@
    } else {
        "false"@
    }) + ",\"fraud_score\":"@ + share(votes) + "}"@
}

/// The message on a transaction with that many votes for fraud; more than five count as five.
pub open spec fn verdict_message(votes: int) -> Seq<char> {
    message("200 OK"@, verdict_body(votes))
}

/// The answer to a readiness probe is a message.
pub proof fn law_ready()
    ensures
        READY@ == message("200 OK"@, "{\"ready\":true}"@),
{
    reveal_strlit("HTTP/1.1 ");
    reveal_strlit("\r\nContent-Type: application/json\r\nConnection: keep-alive\r\nContent-Length: ");
    reveal_strlit("\r\n\r\n");
    reveal_strlit("200 OK");
    reveal_strlit("{\"ready\":true}");
    reveal_strlit("HTTP/1.1 200 OK\r\nContent-Type: application/json\r\nConnection: keep-alive\r\nContent-Length: 14\r\n\r\n{\"ready\":true}");
    reveal_with_fuel(decimal, 3);
    assert(READY@ =~= message("200 OK"@, "{\"ready\":true}"@));
}

/// The answer to an unknown route is a message.
pub proof fn law_not_found()
    ensures
        NOT_FOUND@ == message("404 Not Found"@, "{\"error\":\"not_found\"}"@),
{
    reveal_strlit("HTTP/1.1 ");
    reveal_strlit("\r\nContent-Type: application/json\r\nConnection: keep-alive\r\nContent-Length: ");
    reveal_strlit("\r\n\r\n");
    reveal_strlit("404 Not Found");
    reveal_strlit("{\"error\":\"not_found\"}");
    reveal_strlit("HTTP/1.1 404 Not Found\r\nContent-Type: application/json\r\nConnection: keep-alive\r\nContent-Length: 21\r\n\r\n{\"error\":\"not_found\"}");
    reveal_with_fuel(decimal, 3);
    assert(NOT_FOUND@ =~= message("404 Not Found"@, "{\"error\":\"not_found\"}"@));
}

/// What stands before the body of a verdict.
spec fn verdict_head(votes: int) -> Seq<char> {
    if votes < 3 {
        "HTTP/1.1 200 OK\r\nContent-Type: application/json\r\nConnection: keep-alive\r\nContent-Length: 35\r\n\r\n"@
    } else {
        "HTTP/1.1 200 OK\r\nContent-Type: application/json\r\nConnection: keep-alive\r\nContent-Length: 36\r\n\r\n"@
    }
}

proof fn lemma_verdict_head(votes: int)
    ensures
        verdict_message(votes) == verdict_head(votes) + verdict_body(votes),
{
    reveal_strlit("HTTP/1.1 ");
    reveal_strlit("200 OK");
    reveal_strlit("\r\nContent-Type: application/json\r\nConnection: keep-alive\r\nContent-Length: ");
    reveal_strlit("\r\n\r\n");
    reveal_strlit("HTTP/1.1 200 OK\r\nContent-Type: application/json\r\nConnection: keep-alive\r\nContent-Length: 35\r\n\r\n");
    reveal_strlit("HTTP/1.1 200 OK\r\nContent-Type: application/json\r\nConnection: keep-alive\r\nContent-Length: 36\r\n\r\n");
    lemma_body_texts();
    assert(verdict_body(votes).len() == if votes < 3 {
        35int
    } else {
        36
    });
    reveal_with_fuel(decimal, 3);
    assert(verdict_message(votes) =~= verdict_head(votes) + verdict_body(votes));
}

/// The texts that bodies are made of.
proof fn lemma_body_texts()
    ensures
        "{\"approved\":"@ == seq!['{', '"', 'a', 'p', 'p', 'r', 'o', 'v', 'e', 'd', '"', ':'],
        "true"@ == seq!['t', 'r', 'u', 'e'],
        "false"@ == seq!['f', 'a', 'l', 's', 'e'],
        ",\"fraud_score\":"@ == seq![',', '"', 'f', 'r', 'a', 'u', 'd', '_', 's', 'c', 'o', 'r', 'e', '"', ':'],
        "0.0"@ == seq!['0', '.', '0'],
        "0.2"@ == seq!['0', '.', '2'],
        "0.4"@ == seq!['0', '.', '4'],
        "0.6"@ == seq!['0', '.', '6'],
        "0.8"@ == seq!['0', '.', '8'],
        "1.0"@ == seq!['1', '.', '0'],
        "}"@ == seq!['}'],
{
    reveal_strlit("{\"approved\":");
    reveal_strlit("true");
    reveal_strlit("false");
    reveal_strlit(",\"fraud_score\":");
    reveal_strlit("0.0");
    reveal_strlit("0.2");
    reveal_strlit("0.4");
    reveal_strlit("0.6");
    reveal_strlit("0.8");
    reveal_strlit("1.0");
    reveal_strlit("}");
}

/// Each verdict is its message.
proof fn lemma_verdicts()
    ensures
        SCORE0@ == verdict_message(0),
        SCORE1@ == verdict_message(1),
        SCORE2@ == verdict_message(2),
        SCORE3@ == verdict_message(3),
        SCORE4@ == verdict_message(4),
        SCORE5@ == verdict_message(5),
{
    lemma_body_texts();
    reveal_strlit("HTTP/1.1 200 OK\r\nContent-Type: application/json\r\nConnection: keep-alive\r\nContent-Length: 35\r\n\r\n");
    reveal_strlit("HTTP/1.1 200 OK\r\nContent-Type: application/json\r\nConnection: keep-alive\r\nContent-Length: 36\r\n\r\n");
    assert(SCORE0@ == verdict_message(0)) by {
        reveal_strlit("HTTP/1.1 200 OK\r\nContent-Type: application/json\r\nConnection: keep-alive\r\nContent-Length: 35\r\n\r\n{\"approved\":true,\"fraud_score\":0.0}");
        lemma_verdict_head(0);
        assert(SCORE0@ =~= verdict_head(0) + verdict_body(0));
    }
    assert(SCORE1@ == verdict_message(1)) by {
        reveal_strlit("HTTP/1.1 200 OK\r\nContent-Type: application/json\r\nConnection: keep-alive\r\nContent-Length: 35\r\n\r\n{\"approved\":true,\"fraud_score\":0.2}");
        lemma_verdict_head(1);
        assert(SCORE1@ =~= verdict_head(1) + verdict_body(1));
    }
    assert(SCORE2@ == verdict_message(2)) by {
        reveal_strlit("HTTP/1.1 200 OK\r\nContent-Type: application/json\r\nConnection: keep-alive\r\nContent-Length: 35\r\n\r\n{\"approved\":true,\"fraud_score\":0.4}");
        lemma_verdict_head(2);
        assert(SCORE2@ =~= verdict_head(2) + verdict_body(2));
    }
    assert(SCORE3@ == verdict_message(3)) by {
        reveal_strlit("HTTP/1.1 200 OK\r\nContent-Type: application/json\r\nConnection: keep-alive\r\nContent-Length: 36\r\n\r\n{\"approved\":false,\"fraud_score\":0.6}");
        lemma_verdict_head(3);
        assert(SCORE3@ =~= verdict_head(3) + verdict_body(3));
    }
    assert(SCORE4@ == verdict_message(4)) by {
        reveal_strlit("HTTP/1.1 200 OK\r\nContent-Type: application/json\r\nConnection: keep-alive\r\nContent-Length: 36\r\n\r\n{\"approved\":false,\"fraud_score\":0.8}");
        lemma_verdict_head(4);
        assert(SCORE4@ =~= verdict_head(4) + verdict_body(4));
    }
    assert(SCORE5@ == verdict_message(5)) by {
        reveal_strlit("HTTP/1.1 200 OK\r\nContent-Type: application/json\r\nConnection: keep-alive\r\nContent-Length: 36\r\n\r\n{\"approved\":false,\"fraud_score\":1.0}");
        lemma_verdict_head(5);
        assert(SCORE5@ =~= verdict_head(5) + verdict_body(5));
    }
}

/// The response to a transaction with that many votes for fraud.
pub fn fraud_http(score: usize) -> (r: &'static [u8])
    ensures
        r@ == encode_utf8(verdict_message(score as int)),
{
    proof {
        lemma_verdicts();
    }
    match score {
        0 => SCORE0.as_bytes(),
        1 => SCORE1.as_bytes(),
        2 => SCORE2.as_bytes(),
        3 => SCORE3.as_bytes(),
        4 => SCORE4.as_bytes(),
        _ => SCORE5.as_bytes(),
    }
}

} // verus!
