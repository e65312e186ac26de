//! A whole run of a connection: which requests it answers, and that this does not depend on
//! how the bytes were cut into reads.
use vstd::prelude::*;

use crate::http::{
    answer, law_request_extent, law_request_stable, lemma_ends, request, route_of, Connection,
    RequestText, RouteText, READ_BUF,
};

verus! {

/// The requests that stand in `buf` one behind the other, and the bytes behind the last that is
/// all there.
pub open spec fn drained(buf: Seq<u8>) -> (Seq<RequestText>, Seq<u8>)
    decreases buf.len(),
{
    match request(buf) {
        Some((text, consumed)) if 0 < consumed <= buf.len() => {
            let (later, rest) = drained(buf.skip(consumed));
            (seq![text] + later, rest)
        },
        _ => (Seq::empty(), buf),
    }
}

/// The first `n` pieces, one behind the other.
pub open spec fn joined(pieces: Seq<Seq<u8>>, n: nat) -> Seq<u8>
    decreases n,
{
    if n == 0 {
        Seq::empty()
    } else {
        joined(pieces, (n - 1) as nat) + pieces[n - 1]
    }
}

/// What a connection has answered after `n` reads, and the bytes that it still holds: after each
/// read it answers every request that is all there.
pub open spec fn served(reads: Seq<Seq<u8>>, n: nat) -> (Seq<RequestText>, Seq<u8>)
    decreases n,
{
    if n == 0 {
        (Seq::empty(), Seq::empty())
    } else {
        let (answered, held) = served(reads, (n - 1) as nat);
        let (more, rest) = drained(held + reads[n - 1]);
        (answered + more, rest)
    }
}

/// What is written in answer to requests: one message each, in their order. `score` gives the
/// score on the transaction in a body.
pub open spec fn written(
    texts: Seq<RequestText>,
    ready: bool,
    score: spec_fn(Seq<u8>) -> int,
) -> Seq<u8>
    decreases texts.len(),
{
    if texts.len() == 0 {
        Seq::empty()
    } else {
        written(texts.drop_last(), ready, score) + reply(texts.last(), ready, score)
    }
}

/// The message that answers one request.
pub open spec fn reply(
    text: RequestText,
    ready: bool,
    score: spec_fn(Seq<u8>) -> int,
) -> Seq<u8> {
    let route = route_of(text);
    answer(
        route,
        ready,
        match route {
            RouteText::Score(body) => score(body),
            _ => 0,
        },
    )
}

/// `piece` is one request from its first byte to its last.
pub open spec fn is_request(piece: Seq<u8>) -> bool {
    request(piece) matches Some((_, consumed)) && consumed == piece.len()
}

/// The requests in the first `n` pieces, each of which is one.
pub open spec fn texts_of(pieces: Seq<Seq<u8>>, n: nat) -> Seq<RequestText> {
    Seq::new(n, |i: int| (request(pieces[i])->0).0)
}

/// A request takes at least one byte, and none that is not there.
proof fn lemma_consumed(buf: Seq<u8>)
    ensures
        request(buf) matches Some((_, consumed)) ==> 0 < consumed <= buf.len(),
{
    if request(buf) is Some {
        law_request_extent(buf);
        lemma_ends();
    }
}

/// Draining some bytes, and then what is left of them with more behind it, drains them all: the
/// same requests come out, and the same bytes are left.
pub proof fn law_drained_in_parts(first: Seq<u8>, more: Seq<u8>)
    ensures
        ({
            let (texts, rest) = drained(first);
            let (later, left) = drained(rest + more);
            drained(first + more) == (texts + later, left)
        }),
    decreases first.len(),
{
    let (texts, rest) = drained(first);
    let (later, left) = drained(rest + more);
    lemma_consumed(first);
    match request(first) {
        Some((text, consumed)) => {
            law_request_stable(first, more);
            lemma_consumed(first + more);
            law_drained_in_parts(first.skip(consumed), more);
            assert((first + more).skip(consumed) =~= first.skip(consumed) + more);
            let (texts2, rest2) = drained(first.skip(consumed));
            assert(seq![text] + (texts2 + later) =~= (seq![text] + texts2) + later);
        },
        None => {
            assert(Seq::<RequestText>::empty() + later =~= later);
        },
    }
}

/// What a connection answers, and what it holds, depends on the bytes that came and not on how
/// they were cut into reads.
pub proof fn law_served_is_drained(reads: Seq<Seq<u8>>, n: nat)
    ensures
        served(reads, n) == drained(joined(reads, n)),
    decreases n,
{
    if n == 0 {
        lemma_consumed(Seq::empty());
    } else {
        law_served_is_drained(reads, (n - 1) as nat);
        law_drained_in_parts(joined(reads, (n - 1) as nat), reads[n - 1]);
    }
}

/// Answering the next request of a connection and dropping its bytes is a step of draining what
/// the connection holds; where no request is there, nothing is drained.
pub proof fn law_steps_drain(before: &Connection, after: &Connection)
    requires
        before.wf(),
        request(before.pending()) matches Some((_, consumed)) ==> after.pending() == if consumed
            >= before.len {
            Seq::<u8>::empty()
        } else {
            before.pending().skip(consumed)
        },
    ensures
        drained(before.pending()) == match request(before.pending()) {
            Some((text, _)) => (
                seq![text] + drained(after.pending()).0,
                drained(after.pending()).1,
            ),
            None => (Seq::<RequestText>::empty(), before.pending()),
        },
{
    lemma_consumed(before.pending());
    if let Some((_, consumed)) = request(before.pending()) {
        assert(before.pending().skip(consumed) =~= after.pending());
    }
}

/// A request that is cut short is none.
proof fn lemma_cut_short(piece: Seq<u8>, n: int)
    requires
        is_request(piece),
        0 <= n < piece.len(),
    ensures
        request(piece.take(n)) is None,
{
    if request(piece.take(n)) is Some {
        lemma_consumed(piece.take(n));
        law_request_stable(piece.take(n), piece.skip(n));
        assert(piece.take(n) + piece.skip(n) =~= piece);
    }
}

/// A request that is drained leaves what is behind it.
proof fn lemma_drained_one(piece: Seq<u8>, more: Seq<u8>)
    requires
        is_request(piece),
    ensures
        drained(piece + more) == (
            seq![(request(piece)->0).0] + drained(more).0,
            drained(more).1,
        ),
{
    law_request_stable(piece, more);
    lemma_consumed(piece);
    assert((piece + more).skip(piece.len() as int) =~= more);
}

/// Requests sent one behind the other are all drained, in their order, and nothing is left.
pub proof fn law_drained_requests(pieces: Seq<Seq<u8>>, n: nat)
    requires
        n <= pieces.len(),
        forall|i: int| 0 <= i < n ==> is_request(#[trigger] pieces[i]),
    ensures
        drained(joined(pieces, n)) == (texts_of(pieces, n), Seq::<u8>::empty()),
    decreases n,
{
    lemma_consumed(Seq::empty());
    if n == 0 {
        assert(texts_of(pieces, 0) =~= Seq::empty());
    } else {
        let before = (n - 1) as nat;
        let last = pieces[n - 1];
        law_drained_requests(pieces, before);
        law_drained_in_parts(joined(pieces, before), last);
        lemma_drained_one(last, Seq::empty());
        assert(Seq::<u8>::empty() + last =~= last);
        assert(last + Seq::<u8>::empty() =~= last);
        let one = seq![(request(last)->0).0];
        assert(one + Seq::<RequestText>::empty() =~= one);
        assert(texts_of(pieces, before) + one =~= texts_of(pieces, n));
    }
}

/// While requests come in, a connection is never full of bytes that it cannot answer, wherever
/// the stream of them is cut: it goes on reading.
pub proof fn law_room_to_read(pieces: Seq<Seq<u8>>, n: nat, cut: int)
    requires
        n <= pieces.len(),
        forall|i: int|
            0 <= i < n ==> is_request(#[trigger] pieces[i]) && pieces[i].len() <= READ_BUF,
        0 <= cut <= joined(pieces, n).len(),
    ensures
        drained(joined(pieces, n).take(cut)).1.len() < READ_BUF,
    decreases n,
{
    lemma_consumed(Seq::empty());
    let all = joined(pieces, n);
    if n == 0 {
        assert(all.take(cut) =~= Seq::<u8>::empty());
    } else {
        let before = joined(pieces, (n - 1) as nat);
        let last = pieces[n - 1];
        if cut <= before.len() {
            law_room_to_read(pieces, (n - 1) as nat, cut);
            assert(all.take(cut) =~= before.take(cut));
        } else {
            let part = cut - before.len();
            assert(all.take(cut) =~= before + last.take(part));
            law_drained_requests(pieces, (n - 1) as nat);
            law_drained_in_parts(before, last.take(part));
            assert(Seq::<u8>::empty() + last.take(part) =~= last.take(part));
            if part < last.len() {
                lemma_cut_short(last, part);
            } else {
                assert(last.take(part) =~= last);
                assert(last + Seq::<u8>::empty() =~= last);
                lemma_drained_one(last, Seq::empty());
            }
        }
    }
}

proof fn lemma_joined_prefix(pieces: Seq<Seq<u8>>, m: nat, n: nat)
    requires
        m <= n,
    ensures
        joined(pieces, m).len() <= joined(pieces, n).len(),
        joined(pieces, n).take(joined(pieces, m).len() as int) == joined(pieces, m),
    decreases n,
{
    if m < n {
        lemma_joined_prefix(pieces, m, (n - 1) as nat);
        assert(joined(pieces, n).take(joined(pieces, m).len() as int) =~= joined(
            pieces,
            (n - 1) as nat,
        ).take(joined(pieces, m).len() as int));
    } else {
        assert(joined(pieces, n).take(joined(pieces, n).len() as int) =~= joined(pieces, n));
    }
}

/// A peer that sends complete requests gets one answer to each, in the order of the requests,
/// however the bytes are cut into reads; the connection always has room to read on, and holds
/// nothing in the end.
pub proof fn law_answers_do_not_depend_on_cuts(
    pieces: Seq<Seq<u8>>,
    reads: Seq<Seq<u8>>,
    ready: bool,
    score: spec_fn(Seq<u8>) -> int,
)
    requires
        forall|i: int|
            0 <= i < pieces.len() ==> is_request(#[trigger] pieces[i]) && pieces[i].len()
                <= READ_BUF,
        joined(reads, reads.len()) == joined(pieces, pieces.len()),
    ensures
        served(reads, reads.len()) == (texts_of(pieces, pieces.len()), Seq::<u8>::empty()),
        written(served(reads, reads.len()).0, ready, score) == joined(
            Seq::new(
                pieces.len(),
                |i: int| reply((request(pieces[i])->0).0, ready, score),
            ),
            pieces.len(),
        ),
        forall|m: int|
            0 <= m <= reads.len() ==> (#[trigger] served(reads, m as nat)).1.len() < READ_BUF,
{
    law_served_is_drained(reads, reads.len());
    law_drained_requests(pieces, pieces.len());
    lemma_written(pieces, pieces.len(), ready, score);
    assert forall|m: int| 0 <= m <= reads.len() implies (#[trigger] served(
        reads,
        m as nat,
    )).1.len() < READ_BUF by {
        law_served_is_drained(reads, m as nat);
        lemma_joined_prefix(reads, m as nat, reads.len());
        law_room_to_read(pieces, pieces.len(), joined(reads, m as nat).len() as int);
    }
}

proof fn lemma_written(
    pieces: Seq<Seq<u8>>,
    n: nat,
    ready: bool,
    score: spec_fn(Seq<u8>) -> int,
)
    requires
        n <= pieces.len(),
    ensures
        written(texts_of(pieces, n), ready, score) == joined(
            Seq::new(
                pieces.len(),
                |i: int| reply((request(pieces[i])->0).0, ready, score),
            ),
            n,
        ),
    decreases n,
{
    if n > 0 {
        lemma_written(pieces, (n - 1) as nat, ready, score);
        assert(texts_of(pieces, n).drop_last() =~= texts_of(pieces, (n - 1) as nat));
    }
}

} // verus!
