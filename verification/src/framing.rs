//! How a request is written, and that what was written is what is read.
use vstd::prelude::*;
use vstd::string::StringSliceAdditionalSpecFns;

use crate::bytes::{
    digit, find_bytes, is_digit, memchr, occurs_at, position_of, position_of_byte,
};
use crate::http::{
    content_length, length_in, line_end, lower, lowered, parse_http, parse_http_consumed,
    request, space, stated_length, states_length, trim_ascii, trimmed, trimmed_end, ParsedHttp,
    RequestText,
};
use crate::iso::{digits_value, lemma_digits_value_nonneg};
use crate::json::{after_digits, lemma_after_digits};

verus! {

/// Space, tab, line feed, form feed or carriage return.
pub open spec fn is_blank(b: u8) -> bool {
    b == 0x20 || b == 0x09 || b == 0x0a || b == 0x0c || b == 0x0d
}

/// `content-length:`.
pub open spec fn length_name() -> Seq<u8> {
    seq![
        0x63u8, 0x6f, 0x6e, 0x74, 0x65, 0x6e, 0x74, 0x2d, 0x6c, 0x65, 0x6e, 0x67, 0x74, 0x68, 0x3a,
    ]
}

/// The byte, or the capital letter of it.
pub open spec fn is_letter_for(b: u8, small: u8) -> bool {
    b == small || (0x61 <= small <= 0x7a && b + 0x20 == small)
}

/// Behind nothing but blanks, the line names the length of a body at `at`, in whatever case.
pub open spec fn names_length(line: Seq<u8>, at: int) -> bool {
    &&& 0 <= at
    &&& at + 15 <= line.len()
    &&& forall|k: int| 0 <= k < at ==> is_blank(#[trigger] line[k])
    &&& forall|k: int| 0 <= k < 15 ==> is_letter_for(#[trigger] line[at + k], length_name()[k])
}

/// A line that states the length of the body.
pub open spec fn is_length_line(line: Seq<u8>) -> bool {
    exists|at: int| names_length(line, at)
}

/// Behind the name at `at` and blanks, the digits of the length stand from `from` to `to`.
pub open spec fn has_digits(line: Seq<u8>, at: int, from: int, to: int) -> bool {
    &&& at + 15 <= from <= to <= line.len()
    &&& forall|k: int| at + 15 <= k < from ==> is_blank(#[trigger] line[k])
    &&& from < line.len() ==> !is_blank(line[from])
    &&& forall|k: int| from <= k < to ==> 0x30 <= #[trigger] line[k] <= 0x39
    &&& to < line.len() ==> !(0x30 <= line[to] <= 0x39)
}

/// The line states the length `n`; none above the longest that is accepted.
pub open spec fn says_length(line: Seq<u8>, n: int) -> bool {
    exists|at: int, from: int, to: int|
        names_length(line, at) && #[trigger] has_digits(line, at, from, to) && n == if digits_value(
            line.subrange(from, to),
        ) < 8192 {
            digits_value(line.subrange(from, to))
        } else {
            8192
        }
}

/// A line of the head stands from `start` to `end`.
pub open spec fn is_line(head: Seq<u8>, start: int, end: int) -> bool {
    &&& 0 <= start <= end <= head.len()
    &&& start == 0 || head[start - 1] == 0x0a
    &&& end == head.len() || head[end] == 0x0a
    &&& forall|k: int| start <= k < end ==> #[trigger] head[k] != 0x0a
}

proof fn lemma_trimmed_end(s: Seq<u8>) -> (end: int)
    ensures
        0 <= end <= s.len(),
        trimmed_end(s) == s.take(end),
        forall|k: int| end <= k < s.len() ==> is_blank(#[trigger] s[k]),
        end > 0 ==> !is_blank(s[end - 1]),
    decreases s.len(),
{
    if s.len() > 0 && is_blank(s.last()) {
        let end = lemma_trimmed_end(s.drop_last());
        assert(s.drop_last().take(end) =~= s.take(end));
        assert forall|k: int| end <= k < s.len() implies is_blank(#[trigger] s[k]) by {
            if k < s.len() - 1 {
                assert(s[k] == s.drop_last()[k]);
            }
        }
        end
    } else {
        assert(s.take(s.len() as int) =~= s);
        s.len() as int
    }
}

/// Trimming takes the blanks off both ends and nothing else.
proof fn lemma_trimmed(s: Seq<u8>) -> (range: (int, int))
    ensures
        0 <= range.0 <= range.1 <= s.len(),
        trimmed(s) == s.subrange(range.0, range.1),
        forall|k: int| 0 <= k < range.0 ==> is_blank(#[trigger] s[k]),
        forall|k: int| range.1 <= k < s.len() ==> is_blank(#[trigger] s[k]),
        range.0 < range.1 ==> !is_blank(s[range.0]) && !is_blank(s[range.1 - 1]),
        range.0 == range.1 ==> range.0 == s.len(),
    decreases s.len(),
{
    if s.len() > 0 && is_blank(s[0]) {
        let rest = s.drop_first();
        let (a, b) = lemma_trimmed(rest);
        assert(rest.subrange(a, b) =~= s.subrange(a + 1, b + 1));
        assert forall|k: int| 0 <= k < a + 1 implies is_blank(#[trigger] s[k]) by {
            if k > 0 {
                assert(s[k] == rest[k - 1]);
            }
        }
        assert forall|k: int| b + 1 <= k < s.len() implies is_blank(#[trigger] s[k]) by {
            assert(s[k] == rest[k - 1]);
        }
        (a + 1, b + 1)
    } else {
        let end = lemma_trimmed_end(s);
        assert(s.take(end) =~= s.subrange(0, end));
        if end == 0 && s.len() > 0 {
            assert(is_blank(s[0]));
        }
        (0, end)
    }
}

proof fn lemma_name()
    ensures
        "content-length:".spec_bytes() == length_name(),
{
    reveal_strlit("content-length:");
    assert("content-length:".is_ascii());
    assert("content-length:".spec_bytes() =~= length_name());
}

/// A line states a length exactly where it names one behind blanks.
proof fn lemma_states_length(line: Seq<u8>)
    ensures
        states_length(trimmed(line)) == is_length_line(line),
{
    lemma_name();
    let (a, b) = lemma_trimmed(line);
    let t = trimmed(line);
    if states_length(t) {
        assert forall|k: int| 0 <= k < 15 implies is_letter_for(
            #[trigger] line[a + k],
            length_name()[k],
        ) by {
            assert(t[k] == line[a + k]);
        }
        assert(names_length(line, a));
    }
    if is_length_line(line) {
        let at = choose|at: int| names_length(line, at);
        assert(is_letter_for(line[at + 0], length_name()[0]));
        assert(is_letter_for(line[at + 14], length_name()[14]));
        assert(!is_blank(line[at]) && !is_blank(line[at + 14]));
        assert(at == a);
        assert(at + 15 <= b);
        assert forall|k: int| 0 <= k < 15 implies lowered(#[trigger] t[k])
            == length_name()[k] by {
            assert(t[k] == line[at + k]);
            assert(is_letter_for(line[at + k], length_name()[k]));
        }
    }
}

/// What such a line states is the number behind the name.
proof fn lemma_length_in(line: Seq<u8>, n: int)
    requires
        is_length_line(line),
    ensures
        length_in(trimmed(line)) == n <==> says_length(line, n),
{
    lemma_name();
    lemma_states_length(line);
    let (a, b) = lemma_trimmed(line);
    let t = trimmed(line);
    let rest = t.skip(15);
    let (c, d) = lemma_trimmed(rest);
    let value = trimmed(rest);
    lemma_after_digits(value, 0);
    let count = after_digits(value, 0);
    let from0 = if c == d {
        line.len() as int
    } else {
        a + 15 + c
    };
    let to0 = from0 + count;
    assert forall|at: int, from: int, to: int|
        names_length(line, at) && #[trigger] has_digits(line, at, from, to) implies at == a && from
        == from0 && to == to0 by {
        assert(is_letter_for(line[at + 0], length_name()[0]));
        assert(is_letter_for(line[at + 14], length_name()[14]));
        assert(!is_blank(line[at]) && !is_blank(line[at + 14]));
        assert(at == a);
        assert(at + 15 <= b);
        if c == d {
            if from < b {
                assert(is_blank(rest[from - a - 15]));
                assert(line[from] == rest[from - a - 15]);
            }
            assert(from == line.len());
            assert(value.len() == 0);
        } else {
            assert(line[from0] == rest[c]);
            if from < from0 {
                assert(line[from] == rest[from - a - 15]);
            }
            assert(from == from0);
            if to < to0 {
                assert(line[to] == value[to - from0]);
            }
            if to > to0 {
                assert(0x30 <= line[to0] <= 0x39);
                if count < value.len() {
                    assert(line[to0] == value[count]);
                } else {
                    assert(is_blank(line[to0])) by {
                        if to0 < b {
                            assert(line[to0] == rest[to0 - a - 15]);
                        }
                    }
                }
            }
        }
    }
    let at = choose|at: int| names_length(line, at);
    assert(is_letter_for(line[at + 0], length_name()[0]));
    assert(is_letter_for(line[at + 14], length_name()[14]));
    assert(!is_blank(line[at]) && !is_blank(line[at + 14]));
    assert(at == a && at + 15 <= b);
    assert(has_digits(line, a, from0, to0)) by {
        assert forall|k: int| a + 15 <= k < from0 implies is_blank(#[trigger] line[k]) by {
            if k < b {
                assert(line[k] == rest[k - a - 15]);
            }
        }
        assert forall|k: int| from0 <= k < to0 implies 0x30 <= #[trigger] line[k] <= 0x39 by {
            assert(line[k] == value[k - from0]);
            assert(is_digit(value[k - from0]));
        }
        if c < d {
            assert(line[from0] == rest[c]);
        }
        if to0 < line.len() {
            if count < value.len() {
                assert(line[to0] == value[count]);
            } else if c < d {
                assert(is_blank(line[to0])) by {
                    if to0 < b {
                        assert(line[to0] == rest[to0 - a - 15]);
                    }
                }
            }
        }
    }
    assert(line.subrange(from0, to0) =~= value.take(count));
}

proof fn lemma_line_end(text: Seq<u8>, pos: int)
    requires
        0 <= pos <= text.len(),
    ensures
        pos <= line_end(text, pos) <= text.len(),
        line_end(text, pos) < text.len() ==> text[line_end(text, pos)] == 0x0a,
        forall|k: int| pos <= k < line_end(text, pos) ==> #[trigger] text[k] != 0x0a,
    decreases text.len() - pos,
{
    if pos < text.len() && text[pos] != 0x0a {
        lemma_line_end(text, pos + 1);
    }
}

/// From the start of a line on, the first line that states a length decides.
proof fn lemma_first_line(head: Seq<u8>, pos: int, start: int, end: int, n: int)
    requires
        0 <= pos <= start,
        pos == 0 || head[pos - 1] == 0x0a,
        is_line(head, start, end),
        says_length(head.subrange(start, end), n),
        forall|s: int, e: int|
            pos <= s && e < start && #[trigger] is_line(head, s, e) ==> !is_length_line(
                head.subrange(s, e),
            ),
    ensures
        stated_length(head, pos) == Some(n),
    decreases head.len() - pos,
{
    lemma_line_end(head, pos);
    let stop = line_end(head, pos);
    let line = head.subrange(pos, stop);
    lemma_states_length(line);
    assert(is_line(head, pos, stop));
    if pos == start {
        assert(stop == end) by {
            if stop < end {
                assert(head[stop] != 0x0a);
            }
            if end < stop {
                assert(head[end] != 0x0a);
            }
        }
        assert(is_length_line(line));
        lemma_length_in(line, n);
    } else {
        assert(stop < start) by {
            if stop >= start {
                assert(head[start - 1] != 0x0a);
            }
        }
        lemma_first_line(head, stop + 1, start, end, n);
    }
}

/// Where some length is stated, some line states it; where none is, none does.
proof fn lemma_no_line(head: Seq<u8>, pos: int)
    requires
        0 <= pos <= head.len(),
        pos == 0 || head[pos - 1] == 0x0a,
    ensures
        stated_length(head, pos) is None ==> forall|s: int, e: int|
            pos <= s && #[trigger] is_line(head, s, e) ==> !is_length_line(head.subrange(s, e)),
        stated_length(head, pos) matches Some(n) ==> exists|s: int, e: int|
            pos <= s && #[trigger] is_line(head, s, e) && says_length(head.subrange(s, e), n),
    decreases head.len() - pos,
{
    lemma_line_end(head, pos);
    let stop = line_end(head, pos);
    let line = head.subrange(pos, stop);
    lemma_states_length(line);
    assert(is_line(head, pos, stop));
    if is_length_line(line) {
        lemma_length_in(line, length_in(trimmed(line)));
    } else {
        if stop < head.len() {
            lemma_no_line(head, stop + 1);
        }
        if stated_length(head, pos) is None {
            assert forall|s: int, e: int| pos <= s && #[trigger] is_line(head, s, e) implies
                !is_length_line(head.subrange(s, e)) by {
                if s == pos {
                    assert(e == stop) by {
                        if stop < e {
                            assert(head[stop] != 0x0a);
                        }
                        if e < stop {
                            assert(head[e] != 0x0a);
                        }
                    }
                } else if s <= stop {
                    assert(head[s - 1] != 0x0a);
                }
            }
        }
    }
}

/// Wherever it stands in the head, the first line that states a length decides: the length is the
/// number on that line.
pub proof fn law_first_length_counts(
    head: &[u8],
    r: Option<usize>,
    start: int,
    end: int,
    n: int,
)
    requires
        call_ensures(content_length, (head,), r),
        is_line(head@, start, end),
        says_length(head@.subrange(start, end), n),
        forall|s: int, e: int|
            e < start && #[trigger] is_line(head@, s, e) ==> !is_length_line(
                head@.subrange(s, e),
            ),
    ensures
        r matches Some(length) && length == n,
{
    lemma_first_line(head@, 0, start, end, n);
}

/// A head states no length only if no line of it does, and a length that is stated is the number
/// on some line.
pub proof fn law_length_on_a_line(head: &[u8], r: Option<usize>)
    requires
        call_ensures(content_length, (head,), r),
    ensures
        r is None <==> forall|s: int, e: int| #[trigger]
            is_line(head@, s, e) ==> !is_length_line(head@.subrange(s, e)),
        r matches Some(n) ==> exists|s: int, e: int| #[trigger]
            is_line(head@, s, e) && says_length(head@.subrange(s, e), n as int),
{
    lemma_no_line(head@, 0);
    if r is Some {
        let n = r->0 as int;
        let (s, e) = choose|s: int, e: int|
            0 <= s && #[trigger] is_line(head@, s, e) && says_length(head@.subrange(s, e), n);
        assert(is_line(head@, s, e) && is_length_line(head@.subrange(s, e)));
    }
}

/// Every line that names a length states one, none above the longest that is accepted, and no
/// other.
pub proof fn law_length_line_says_one(line: Seq<u8>)
    requires
        is_length_line(line),
    ensures
        exists|n: int| 0 <= n <= 8192 && says_length(line, n),
        forall|a: int, b: int| says_length(line, a) && says_length(line, b) ==> a == b,
{
    let n = length_in(trimmed(line));
    lemma_length_in(line, n);
    let (at, from, to) = choose|at: int, from: int, to: int|
        names_length(line, at) && #[trigger] has_digits(line, at, from, to) && n
            == if digits_value(line.subrange(from, to)) < 8192 {
            digits_value(line.subrange(from, to))
        } else {
            8192
        };
    lemma_digits_value_nonneg(line.subrange(from, to));
    assert forall|a: int, b: int| says_length(line, a) && says_length(line, b) implies a == b by {
        lemma_length_in(line, a);
        lemma_length_in(line, b);
    }
}

/// A line that can stand in a head: not empty, and without the bytes that end lines.
pub open spec fn is_plain(line: Seq<u8>) -> bool {
    line.len() > 0 && forall|k: int|
        0 <= k < line.len() ==> #[trigger] line[k] != 0x0a && line[k] != 0x0d
}

/// The head that these lines make, one below the other.
pub open spec fn head_of(lines: Seq<Seq<u8>>) -> Seq<u8>
    decreases lines.len(),
{
    if lines.len() <= 1 {
        lines[0]
    } else {
        lines[0] + seq![0x0du8, 0x0a] + head_of(lines.skip(1))
    }
}

/// The request with these lines in its head and that body.
pub open spec fn request_of(lines: Seq<Seq<u8>>, body: Seq<u8>) -> Seq<u8> {
    head_of(lines) + seq![0x0du8, 0x0a, 0x0d, 0x0a] + body
}

/// The first line asks for `path` by `method`.
pub open spec fn asks(line: Seq<u8>, method: Seq<u8>, path: Seq<u8>, version: Seq<u8>) -> bool {
    &&& line == method + seq![0x20u8] + path + seq![0x20u8] + version
    &&& !method.contains(0x20)
    &&& !path.contains(0x20)
}

/// The first of the lines that states a length states `n`; where none does, `n` is 0.
pub open spec fn lines_say(lines: Seq<Seq<u8>>, n: int) -> bool {
    if forall|i: int| 0 <= i < lines.len() ==> !is_length_line(#[trigger] lines[i]) {
        n == 0
    } else {
        exists|k: int|
            0 <= k < lines.len() && says_length(#[trigger] lines[k], n) && forall|i: int|
                0 <= i < k ==> !is_length_line(#[trigger] lines[i])
    }
}

proof fn lemma_head_of(lines: Seq<Seq<u8>>)
    requires
        lines.len() > 0,
        forall|i: int| 0 <= i < lines.len() ==> is_plain(#[trigger] lines[i]),
    ensures
        ({
            let head = head_of(lines);
            &&& head.len() >= lines[0].len()
            &&& head.take(lines[0].len() as int) == lines[0]
            &&& forall|p: int|
                0 <= p < head.len() && #[trigger] head[p] == 0x0d ==> p + 2 < head.len() && head[p
                    + 1] == 0x0a && head[p + 2] != 0x0d
        }),
    decreases lines.len(),
{
    let head = head_of(lines);
    assert(is_plain(lines[0]));
    if lines.len() == 1 {
        assert(head.take(lines[0].len() as int) =~= lines[0]);
    } else {
        let rest = lines.skip(1);
        assert forall|i: int| 0 <= i < rest.len() implies is_plain(#[trigger] rest[i]) by {
            assert(is_plain(lines[i + 1]));
        }
        lemma_head_of(rest);
        let tail = head_of(rest);
        assert(is_plain(rest[0]));
        let n = lines[0].len() as int;
        assert(head.take(n) =~= lines[0]);
        assert(tail[0] == tail.take(rest[0].len() as int)[0]);
        assert forall|p: int| 0 <= p < head.len() && #[trigger] head[p] == 0x0d implies p + 2
            < head.len() && head[p + 1] == 0x0a && head[p + 2] != 0x0d by {
            if p < n {
                assert(lines[0][p] != 0x0d);
            } else if p == n {
                assert(head[p + 2] == tail[0]);
            } else if p > n + 1 {
                assert(head[p] == tail[p - n - 2]);
                assert(head[p + 1] == tail[p - n - 1]);
                assert(head[p + 2] == tail[p - n]);
            }
        }
    }
}

proof fn lemma_trimmed_push(s: Seq<u8>)
    ensures
        trimmed(s.push(0x0d)) == trimmed(s),
    decreases s.len(),
{
    let more = s.push(0x0d);
    if s.len() > 0 && is_blank(s[0]) {
        lemma_trimmed_push(s.drop_first());
        assert(more.drop_first() =~= s.drop_first().push(0x0d));
    } else if s.len() > 0 {
        assert(more.drop_last() =~= s);
    } else {
        assert(more.drop_first() =~= s);
    }
}

proof fn lemma_head_length(text: Seq<u8>, pos: int, lines: Seq<Seq<u8>>, n: int)
    requires
        0 <= pos <= text.len(),
        lines.len() > 0,
        text.skip(pos) == head_of(lines),
        forall|i: int| 0 <= i < lines.len() ==> is_plain(#[trigger] lines[i]),
        lines_say(lines, n),
    ensures
        match stated_length(text, pos) {
            Some(length) => length == n,
            None => n == 0,
        },
    decreases lines.len(),
{
    let line = lines[0];
    assert(is_plain(line));
    lemma_head_of(lines);
    lemma_line_end(text, pos);
    let stop = line_end(text, pos);
    let count = line.len() as int;
    assert forall|k: int| 0 <= k < count implies text[pos + k] == line[k] by {
        assert(text.skip(pos)[k] == head_of(lines).take(count)[k]);
    }
    lemma_states_length(line);
    lemma_trimmed_push(line);
    if is_length_line(line) {
        let k = choose|k: int|
            0 <= k < lines.len() && says_length(#[trigger] lines[k], n) && forall|i: int|
                0 <= i < k ==> !is_length_line(#[trigger] lines[i]);
        assert(k == 0) by {
            if k > 0 {
                assert(!is_length_line(lines[0]));
            }
        }
        lemma_length_in(line, n);
    }
    if lines.len() == 1 {
        assert(text.len() == pos + count);
        if stop < text.len() {
            assert(text[pos + (stop - pos)] == line[stop - pos]);
        }
        assert(text.subrange(pos, stop) =~= line);
    } else {
        let rest = lines.skip(1);
        assert(text.skip(pos)[count] == 0x0d);
        assert(text.skip(pos)[count + 1] == 0x0a);
        assert(text[pos + count] == 0x0d && text[pos + count + 1] == 0x0a);
        assert(stop == pos + count + 1) by {
            if stop < pos + count {
                assert(text[pos + (stop - pos)] == line[stop - pos]);
            }
            if stop > pos + count + 1 {
                assert(text[pos + count + 1] != 0x0a);
            }
        }
        assert(text.subrange(pos, stop) =~= line.push(0x0d));
        if !is_length_line(line) {
            assert(text.skip(stop + 1) =~= head_of(rest)) by {
                assert(text.skip(stop + 1) =~= text.skip(pos).skip(count + 2));
            }
            assert forall|i: int| 0 <= i < rest.len() implies is_plain(#[trigger] rest[i]) by {
                assert(is_plain(lines[i + 1]));
            }
            if forall|i: int| 0 <= i < lines.len() ==> !is_length_line(#[trigger] lines[i]) {
                assert forall|i: int| 0 <= i < rest.len() implies !is_length_line(
                    #[trigger] rest[i],
                ) by {
                    assert(!is_length_line(lines[i + 1]));
                }
            } else {
                let k = choose|k: int|
                    0 <= k < lines.len() && says_length(#[trigger] lines[k], n) && forall|i: int|
                        0 <= i < k ==> !is_length_line(#[trigger] lines[i]);
                assert(is_length_line(lines[k]));
                assert(rest[k - 1] == lines[k]);
                assert forall|i: int| 0 <= i < k - 1 implies !is_length_line(
                    #[trigger] rest[i],
                ) by {
                    assert(!is_length_line(lines[i + 1]));
                }
            }
            lemma_head_length(text, stop + 1, rest, n);
        }
    }
}

proof fn lemma_first_at(haystack: Seq<u8>, needle: Seq<u8>, from: int, at: int)
    requires
        0 <= from <= at,
        occurs_at(haystack, needle, at),
        forall|k: int| from <= k < at ==> !occurs_at(haystack, needle, k),
    ensures
        position_of(haystack, needle, from) == Some(at),
    decreases at - from,
{
    if from < at {
        lemma_first_at(haystack, needle, from + 1, at);
    }
}

proof fn lemma_first_byte_at(buf: Seq<u8>, byte: u8, from: int, at: int)
    requires
        0 <= from <= at < buf.len(),
        buf[at] == byte,
        forall|k: int| from <= k < at ==> buf[k] != byte,
    ensures
        position_of_byte(buf, byte, from) == Some(at),
    decreases at - from,
{
    if from < at {
        lemma_first_byte_at(buf, byte, from + 1, at);
    }
}

proof fn lemma_end_marks()
    ensures
        "\r\n\r\n".spec_bytes() == seq![0x0du8, 0x0a, 0x0d, 0x0a],
        "\r\n".spec_bytes() == seq![0x0du8, 0x0a],
{
    reveal_strlit("\r\n\r\n");
    assert("\r\n\r\n".is_ascii());
    assert("\r\n\r\n".spec_bytes() =~= seq![0x0du8, 0x0a, 0x0d, 0x0a]);
    reveal_strlit("\r\n");
    assert("\r\n".is_ascii());
    assert("\r\n".spec_bytes() =~= seq![0x0du8, 0x0a]);
}

/// The marks of a written head are where they were written.
proof fn lemma_marks(
    buf: Seq<u8>,
    lines: Seq<Seq<u8>>,
    method: Seq<u8>,
    path: Seq<u8>,
    version: Seq<u8>,
    more: Seq<u8>,
)
    requires
        lines.len() >= 2,
        forall|i: int| 0 <= i < lines.len() ==> is_plain(#[trigger] lines[i]),
        asks(lines[0], method, path, version),
        buf == request_of(lines, more),
    ensures
        ({
            let end = head_of(lines).len() as int;
            &&& position_of(buf, "\r\n\r\n".spec_bytes(), 0) == Some(end)
            &&& buf.take(end) == head_of(lines)
            &&& position_of(head_of(lines), "\r\n".spec_bytes(), 0) == Some(
                lines[0].len() as int,
            )
            &&& buf.take(lines[0].len() as int) == lines[0]
            &&& position_of_byte(lines[0], 0x20, 0) == Some(method.len() as int)
            &&& position_of_byte(lines[0], 0x20, method.len() as int + 1) == Some(
                (method.len() + 1 + path.len()) as int,
            )
        }),
{
    let head = head_of(lines);
    let end = head.len() as int;
    let line = lines[0];
    lemma_head_of(lines);
    lemma_end_marks();
    let blank = seq![0x0du8, 0x0a, 0x0d, 0x0a];
    let mark = seq![0x0du8, 0x0a];
    assert(is_plain(line));
    assert(buf.subrange(end, end + 4) =~= blank);
    assert forall|k: int| 0 <= k < end implies !occurs_at(buf, blank, k) by {
        if occurs_at(buf, blank, k) {
            let there = buf.subrange(k, k + 4);
            assert(there[0] == 0x0d && there[2] == 0x0d);
            assert(buf[k] == head[k]);
            assert(buf[k + 2] == head[k + 2]);
        }
    }
    lemma_first_at(buf, blank, 0, end);
    assert(buf.take(end) =~= head);
    let count = line.len() as int;
    assert(head[count] == 0x0d && head[count + 1] == 0x0a);
    assert(head.subrange(count, count + 2) =~= mark);
    assert forall|k: int| 0 <= k < count implies !occurs_at(head, mark, k) by {
        if occurs_at(head, mark, k) {
            let there = head.subrange(k, k + 2);
            assert(there[0] == 0x0d);
            assert(head[k] == head.take(count)[k]);
        }
    }
    lemma_first_at(head, mark, 0, count);
    assert(buf.take(count) =~= line) by {
        assert(buf.take(count) =~= buf.take(end).take(count));
    }
    let first = method.len() as int;
    let second = first + 1 + path.len();
    assert forall|k: int| 0 <= k < first implies line[k] != 0x20 by {
        assert(line[k] == method[k]);
        assert(method.contains(method[k]));
    }
    assert forall|k: int| first + 1 <= k < second implies line[k] != 0x20 by {
        assert(line[k] == path[k - first - 1]);
        assert(path.contains(path[k - first - 1]));
    }
    lemma_first_byte_at(line, 0x20, 0, first);
    lemma_first_byte_at(line, 0x20, first + 1, second);
}

/// What a written request comes to.
pub proof fn lemma_written_request(
    text: Seq<u8>,
    lines: Seq<Seq<u8>>,
    method: Seq<u8>,
    path: Seq<u8>,
    version: Seq<u8>,
    body: Seq<u8>,
    more: Seq<u8>,
)
    requires
        lines.len() >= 2,
        forall|i: int| 0 <= i < lines.len() ==> is_plain(#[trigger] lines[i]),
        asks(lines[0], method, path, version),
        lines_say(lines, body.len() as int),
        text == request_of(lines, body) + more,
    ensures
        request(text) == Some(
            (RequestText { method, path, body }, request_of(lines, body).len() as int),
        ),
{
    let head = head_of(lines);
    assert(text =~= request_of(lines, body + more));
    lemma_marks(text, lines, method, path, version, body + more);
    lemma_end_marks();
    assert(head.skip(0) =~= head);
    lemma_head_length(head, 0, lines, body.len() as int);
    let start = head.len() as int + 4;
    assert(text.subrange(start, start + body.len()) =~= body);
    let line = lines[0];
    assert(line.take(method.len() as int) =~= method);
    assert(line.subrange(method.len() as int + 1, method.len() as int + 1 + path.len()) =~= path);
}

/// A request that is written with its lines one below the other, a blank line, and a body as long
/// as the lines say, is read back as it was written, whatever follows it.
pub proof fn law_written_is_read(
    buf: &[u8],
    lines: Seq<Seq<u8>>,
    method: Seq<u8>,
    path: Seq<u8>,
    version: Seq<u8>,
    body: Seq<u8>,
    more: Seq<u8>,
    r: Option<(ParsedHttp<'_>, usize)>,
)
    requires
        call_ensures(parse_http_consumed, (buf,), r),
        lines.len() >= 2,
        forall|i: int| 0 <= i < lines.len() ==> is_plain(#[trigger] lines[i]),
        asks(lines[0], method, path, version),
        lines_say(lines, body.len() as int),
        buf@ == request_of(lines, body) + more,
    ensures
        r matches Some((parsed, consumed)) && parsed.method@ == method && parsed.path@ == path
            && parsed.body@ == body && consumed == request_of(lines, body).len(),
{
    lemma_written_request(buf@, lines, method, path, version, body, more);
}

/// A request is not read before its body is as long as its lines say.
pub proof fn law_unfinished_is_not_read(
    buf: &[u8],
    lines: Seq<Seq<u8>>,
    method: Seq<u8>,
    path: Seq<u8>,
    version: Seq<u8>,
    part: Seq<u8>,
    n: int,
    r: Option<(ParsedHttp<'_>, usize)>,
)
    requires
        call_ensures(parse_http_consumed, (buf,), r),
        lines.len() >= 2,
        forall|i: int| 0 <= i < lines.len() ==> is_plain(#[trigger] lines[i]),
        asks(lines[0], method, path, version),
        lines_say(lines, n),
        part.len() < n,
        buf@ == request_of(lines, part),
    ensures
        r is None,
{
    let head = head_of(lines);
    lemma_marks(buf@, lines, method, path, version, part);
    lemma_end_marks();
    assert(head.skip(0) =~= head);
    lemma_head_length(head, 0, lines, n);
}

/// Nothing is read before a blank line has ended the head.
pub proof fn law_head_is_awaited(buf: &[u8], r: Option<(ParsedHttp<'_>, usize)>)
    requires
        call_ensures(parse_http_consumed, (buf,), r),
        forall|p: int|
            0 <= p && p + 4 <= buf@.len() ==> #[trigger] buf@.subrange(p, p + 4)
                != seq![0x0du8, 0x0a, 0x0d, 0x0a],
    ensures
        r is None,
{
    lemma_end_marks();
    lemma_nowhere(buf@, seq![0x0du8, 0x0a, 0x0d, 0x0a], 0);
}

proof fn lemma_nowhere(haystack: Seq<u8>, needle: Seq<u8>, from: int)
    requires
        0 <= from,
        forall|p: int| 0 <= p && p + needle.len() <= haystack.len() ==>
            #[trigger] haystack.subrange(p, p + needle.len()) != needle,
    ensures
        position_of(haystack, needle, from) is None,
    decreases haystack.len() + 1 - from,
{
    if from <= haystack.len() {
        lemma_nowhere(haystack, needle, from + 1);
    }
}

/// A request line alone is no request: a head has another line below it.
pub proof fn law_second_line_required(
    buf: &[u8],
    line: Seq<u8>,
    more: Seq<u8>,
    r: Option<(ParsedHttp<'_>, usize)>,
)
    requires
        call_ensures(parse_http_consumed, (buf,), r),
        is_plain(line),
        buf@ == request_of(seq![line], more),
    ensures
        r is None,
{
    let blank = seq![0x0du8, 0x0a, 0x0d, 0x0a];
    let mark = seq![0x0du8, 0x0a];
    lemma_end_marks();
    assert(head_of(seq![line]) == line);
    let end = line.len() as int;
    assert(buf@.subrange(end, end + 4) =~= blank);
    assert forall|k: int| 0 <= k < end implies !occurs_at(buf@, blank, k) by {
        if occurs_at(buf@, blank, k) {
            assert(buf@.subrange(k, k + 4)[0] == line[k]);
        }
    }
    lemma_first_at(buf@, blank, 0, end);
    assert(buf@.take(end) =~= line);
    assert forall|p: int| 0 <= p && p + mark.len() <= line.len() implies #[trigger] line.subrange(
        p,
        p + mark.len(),
    ) != mark by {
        assert(line.subrange(p, p + 2)[0] == line[p]);
    }
    lemma_nowhere(line, mark, 0);
}

/// A request line with fewer than two spaces is no request.
pub proof fn law_two_spaces_required(
    buf: &[u8],
    lines: Seq<Seq<u8>>,
    method: Seq<u8>,
    rest: Seq<u8>,
    more: Seq<u8>,
    r: Option<(ParsedHttp<'_>, usize)>,
)
    requires
        call_ensures(parse_http_consumed, (buf,), r),
        lines.len() >= 2,
        forall|i: int| 0 <= i < lines.len() ==> is_plain(#[trigger] lines[i]),
        !method.contains(0x20),
        !rest.contains(0x20),
        lines[0] == method || lines[0] == method + seq![0x20u8] + rest,
        buf@ == request_of(lines, more),
    ensures
        r is None,
{
    let text = buf@;
    let head = head_of(lines);
    let end = head.len() as int;
    let line = lines[0];
    let count = line.len() as int;
    let blank = seq![0x0du8, 0x0a, 0x0d, 0x0a];
    let mark = seq![0x0du8, 0x0a];
    lemma_end_marks();
    lemma_head_of(lines);
    assert(is_plain(line));
    assert(text.subrange(end, end + 4) =~= blank);
    assert forall|k: int| 0 <= k < end implies !occurs_at(text, blank, k) by {
        if occurs_at(text, blank, k) {
            let there = text.subrange(k, k + 4);
            assert(there[0] == 0x0d && there[2] == 0x0d);
            assert(text[k] == head[k]);
            assert(text[k + 2] == head[k + 2]);
        }
    }
    lemma_first_at(text, blank, 0, end);
    assert(text.take(end) =~= head);
    assert(head[count] == 0x0d && head[count + 1] == 0x0a);
    assert(head.subrange(count, count + 2) =~= mark);
    assert forall|k: int| 0 <= k < count implies !occurs_at(head, mark, k) by {
        if occurs_at(head, mark, k) {
            assert(head.subrange(k, k + 2)[0] == 0x0d);
            assert(head[k] == head.take(count)[k]);
        }
    }
    lemma_first_at(head, mark, 0, count);
    assert(text.take(count) =~= line) by {
        assert(text.take(count) =~= text.take(end).take(count));
    }
    assert forall|k: int| 0 <= k < count && line[k] == 0x20 implies k == method.len() by {
        if k < method.len() {
            assert(line[k] == method[k]);
            assert(method.contains(method[k]));
        } else if k > method.len() {
            assert(line[k] == rest[k - method.len() - 1]);
            assert(rest.contains(rest[k - method.len() - 1]));
        }
    }
    if position_of_byte(line, 0x20, 0) is Some {
        lemma_byte_found(line, 0x20, 0);
        let first = position_of_byte(line, 0x20, 0)->0;
        if position_of_byte(line, 0x20, first + 1) is Some {
            lemma_byte_found(line, 0x20, first + 1);
        }
    }
}

proof fn lemma_byte_found(buf: Seq<u8>, byte: u8, from: int)
    requires
        position_of_byte(buf, byte, from) is Some,
    ensures
        ({
            let at = position_of_byte(buf, byte, from)->0;
            from <= at < buf.len() && 0 <= at && buf[at] == byte
        }),
    decreases buf.len() - from,
{
    if 0 <= from < buf.len() && buf[from] != byte {
        lemma_byte_found(buf, byte, from + 1);
    }
}

/// `piece` stands in the text at `at`, and nowhere before.
pub open spec fn stands_first(text: Seq<u8>, piece: Seq<u8>, at: int) -> bool {
    &&& 0 <= at
    &&& at + piece.len() <= text.len()
    &&& text.subrange(at, at + piece.len()) == piece
    &&& forall|k: int| 0 <= k < at ==> #[trigger] text.subrange(k, k + piece.len()) != piece
}

/// A request is read off the marks in the bytes and nothing else: its head ends at the first blank
/// line, its first line at the first line end in the head, its method at the first space of that
/// line, and its path at the second; its body is as long as the head states.
pub proof fn law_read_by_marks(
    buf: &[u8],
    r: Option<(ParsedHttp<'_>, usize)>,
    head: &[u8],
    length: Option<usize>,
    head_end: int,
    line_end: int,
    first: int,
    second: int,
)
    requires
        call_ensures(parse_http_consumed, (buf,), r),
        call_ensures(content_length, (head,), length),
        stands_first(buf@, seq![0x0du8, 0x0a, 0x0d, 0x0a], head_end),
        head@ == buf@.take(head_end),
        stands_first(head@, seq![0x0du8, 0x0a], line_end),
        0 <= first < second < line_end,
        buf@[first] == 0x20,
        buf@[second] == 0x20,
        forall|k: int| 0 <= k < second && k != first ==> #[trigger] buf@[k] != 0x20,
    ensures
        ({
            let start = head_end + 4;
            let n: int = if length is Some {
                length->0 as int
            } else {
                0
            };
            &&& r is Some <==> start + n <= buf@.len()
            &&& r matches Some((parsed, consumed)) ==> {
                &&& parsed.method@ == buf@.subrange(0, first)
                &&& parsed.path@ == buf@.subrange(first + 1, second)
                &&& parsed.body@ == buf@.subrange(start, start + n)
                &&& consumed == start + n
            }
        }),
{
    let blank = seq![0x0du8, 0x0a, 0x0d, 0x0a];
    let mark = seq![0x0du8, 0x0a];
    lemma_end_marks();
    assert forall|k: int| 0 <= k < head_end implies !occurs_at(buf@, blank, k) by {
        assert(buf@.subrange(k, k + blank.len()) != blank);
    }
    lemma_first_at(buf@, blank, 0, head_end);
    assert forall|k: int| 0 <= k < line_end implies !occurs_at(head@, mark, k) by {
        assert(head@.subrange(k, k + mark.len()) != mark);
    }
    lemma_first_at(head@, mark, 0, line_end);
    let line = buf@.take(line_end);
    lemma_first_byte_at(line, 0x20, 0, first);
    lemma_first_byte_at(line, 0x20, first + 1, second);
    assert(line.take(first) =~= buf@.subrange(0, first));
    assert(line.subrange(first + 1, second) =~= buf@.subrange(first + 1, second));
}

/// Where a mark is missing, there is no request: no blank line, no line end in the head, or fewer
/// than two spaces in the first line.
pub proof fn law_marks_required(
    buf: &[u8],
    r: Option<(ParsedHttp<'_>, usize)>,
    head_end: int,
    line_end: int,
)
    requires
        call_ensures(parse_http_consumed, (buf,), r),
        stands_first(buf@, seq![0x0du8, 0x0a, 0x0d, 0x0a], head_end),
    ensures
        (forall|p: int|
            0 <= p && p + 2 <= head_end ==> #[trigger] buf@.subrange(p, p + 2)
                != seq![0x0du8, 0x0a]) ==> r is None,
        stands_first(buf@.take(head_end), seq![0x0du8, 0x0a], line_end) && (forall|i: int, j: int|
            0 <= i < j < line_end && #[trigger] buf@[i] == 0x20 ==> #[trigger] buf@[j] != 0x20)
            ==> r is None,
{
    let blank = seq![0x0du8, 0x0a, 0x0d, 0x0a];
    let mark = seq![0x0du8, 0x0a];
    let head = buf@.take(head_end);
    lemma_end_marks();
    assert forall|k: int| 0 <= k < head_end implies !occurs_at(buf@, blank, k) by {
        assert(buf@.subrange(k, k + blank.len()) != blank);
    }
    lemma_first_at(buf@, blank, 0, head_end);
    if forall|p: int|
        0 <= p && p + 2 <= head_end ==> #[trigger] buf@.subrange(p, p + 2) != seq![0x0du8, 0x0a] {
        assert forall|p: int| 0 <= p && p + mark.len() <= head.len() implies
            #[trigger] head.subrange(p, p + mark.len()) != mark by {
            assert(head.subrange(p, p + 2) =~= buf@.subrange(p, p + 2));
        }
        lemma_nowhere(head, mark, 0);
    }
    if stands_first(head, mark, line_end) && (forall|i: int, j: int|
        0 <= i < j < line_end && #[trigger] buf@[i] == 0x20 ==> #[trigger] buf@[j] != 0x20) {
        assert forall|k: int| 0 <= k < line_end implies !occurs_at(head, mark, k) by {
            assert(head.subrange(k, k + mark.len()) != mark);
        }
        lemma_first_at(head, mark, 0, line_end);
        let line = buf@.take(line_end);
        if position_of_byte(line, 0x20, 0) is Some {
            lemma_byte_found(line, 0x20, 0);
            let first = position_of_byte(line, 0x20, 0)->0;
            if position_of_byte(line, 0x20, first + 1) is Some {
                lemma_byte_found(line, 0x20, first + 1);
                let second = position_of_byte(line, 0x20, first + 1)->0;
                assert(buf@[first] == 0x20 && buf@[second] == 0x20);
            }
        }
    }
}

/// Reading a request with or without the number of its bytes gives the same request.
pub proof fn law_read_alike(
    buf: &[u8],
    plain: Option<ParsedHttp<'_>>,
    counted: Option<(ParsedHttp<'_>, usize)>,
)
    requires
        call_ensures(parse_http, (buf,), plain),
        call_ensures(parse_http_consumed, (buf,), counted),
    ensures
        plain is Some <==> counted is Some,
        plain matches Some(parsed) ==> parsed@ == ((counted->0).0)@,
{
}

/// Trimming takes blanks off both ends, and leaves none there.
pub proof fn law_trimmed(s: &[u8], r: &[u8])
    requires
        call_ensures(trim_ascii, (s,), r),
    ensures
        exists|from: int, to: int|
            {
                &&& 0 <= from <= to <= s@.len()
                &&& r@ == #[trigger] s@.subrange(from, to)
                &&& forall|k: int| 0 <= k < from ==> is_blank(#[trigger] s@[k])
                &&& forall|k: int| to <= k < s@.len() ==> is_blank(#[trigger] s@[k])
            },
        r@.len() > 0 ==> !is_blank(r@[0]) && !is_blank(r@.last()),
{
    let (from, to) = lemma_trimmed(s@);
    assert(r@ == s@.subrange(from, to));
}

/// What bytes are blank, what is a digit, and what the small letter of a capital is.
pub proof fn law_bytes(b: u8, blank: bool, number: bool, small: u8)
    requires
        call_ensures(space, (b,), blank),
        call_ensures(digit, (b,), number),
        call_ensures(lower, (b,), small),
    ensures
        blank <==> is_blank(b),
        number <==> 0x30 <= b <= 0x39,
        0x41 <= b <= 0x5a ==> small == b + 0x20,
        !(0x41 <= b <= 0x5a) ==> small == b,
{
}

/// A search finds the first place, if there is one.
pub proof fn law_found_first(
    haystack: &[u8],
    needle: &[u8],
    r: Option<usize>,
    byte: u8,
    at: Option<usize>,
    p: int,
)
    requires
        call_ensures(find_bytes, (haystack, needle), r),
        call_ensures(memchr, (haystack, byte), at),
        0 <= p < haystack@.len(),
    ensures
        r matches Some(i) ==> i + needle@.len() <= haystack@.len() && haystack@.subrange(
            i as int,
            i + needle@.len(),
        ) == needle@,
        p + needle@.len() <= haystack@.len() && haystack@.subrange(p, p + needle@.len()) == needle@
            ==> r is Some && r->0 <= p,
        at matches Some(i) ==> i < haystack@.len() && haystack@[i as int] == byte,
        haystack@[p] == byte ==> at is Some && at->0 <= p,
{
    if p + needle@.len() <= haystack@.len() && haystack@.subrange(p, p + needle@.len())
        == needle@ {
        assert(occurs_at(haystack@, needle@, p));
    }
    if haystack@[p] == byte {
        assert(haystack@.contains(byte));
    }
}

} // verus!
