//! The order of a body's members: reading a section does not depend on where it stands, on what
//! stands around it, or on what the other sections say.
use vstd::prelude::*;

use crate::bytes::{CLOSE_BRACE, COMMA, OPEN_BRACE, QUOTE};
use crate::json::{
    after_space, after_value, byte_at, colon_at, is_json_space, key_at, lemma_after_space,
    lemma_after_value, lemma_colon_at, lemma_key_at,
};
use crate::locality::{
    in_common, law_section_local, lemma_colon_local, lemma_key_local, lemma_space_local,
    lemma_value_local,
};
use crate::parser::{
    customer_member, last_transaction_member, lemma_member, lemma_section_at, member, members,
    merchant_member, scanned, section_at, section_named, sections, terminal_member,
    transaction_member, unread, Section, TxText, MAX_BODY,
};

verus! {

/// `onto` with the fields of a section, and only those, taken from `from`.
pub open spec fn with_section(section: Section, from: TxText, onto: TxText) -> TxText {
    match section {
        Section::Transaction => TxText {
            amount: from.amount,
            installments: from.installments,
            requested_at_seconds: from.requested_at_seconds,
            hour_of_day: from.hour_of_day,
            day_of_week: from.day_of_week,
            parse_ok: from.parse_ok,
            ..onto
        },
        Section::Customer => TxText {
            customer_avg_amount: from.customer_avg_amount,
            tx_count_24h: from.tx_count_24h,
            known_merchants: from.known_merchants,
            ..onto
        },
        Section::Merchant => TxText {
            merchant_id: from.merchant_id,
            mcc: from.mcc,
            merchant_avg_amount: from.merchant_avg_amount,
            ..onto
        },
        Section::Terminal => TxText {
            is_online: from.is_online,
            card_present: from.card_present,
            km_from_home: from.km_from_home,
            ..onto
        },
        Section::LastTransaction => TxText {
            last_tx_seconds: from.last_tx_seconds,
            km_from_last_tx: from.km_from_last_tx,
            ..onto
        },
    }
}

/// `a` and `b` agree in the fields of a section.
pub open spec fn agree_on(section: Section, a: TxText, b: TxText) -> bool {
    with_section(section, a, b) == b
}

proof fn lemma_transaction_member_alone(text: Seq<u8>, pos: int, key: Seq<u8>, a: TxText, b: TxText)
    requires
        agree_on(Section::Transaction, a, b),
    ensures
        transaction_member(text, pos, key, b).1 == transaction_member(text, pos, key, a).1,
        transaction_member(text, pos, key, b).0 == with_section(
            Section::Transaction,
            transaction_member(text, pos, key, a).0,
            b,
        ),
{
}

proof fn lemma_customer_member_alone(text: Seq<u8>, pos: int, key: Seq<u8>, a: TxText, b: TxText)
    requires
        agree_on(Section::Customer, a, b),
    ensures
        customer_member(text, pos, key, b).1 == customer_member(text, pos, key, a).1,
        customer_member(text, pos, key, b).0 == with_section(
            Section::Customer,
            customer_member(text, pos, key, a).0,
            b,
        ),
{
}

proof fn lemma_merchant_member_alone(text: Seq<u8>, pos: int, key: Seq<u8>, a: TxText, b: TxText)
    requires
        agree_on(Section::Merchant, a, b),
    ensures
        merchant_member(text, pos, key, b).1 == merchant_member(text, pos, key, a).1,
        merchant_member(text, pos, key, b).0 == with_section(
            Section::Merchant,
            merchant_member(text, pos, key, a).0,
            b,
        ),
{
}

proof fn lemma_terminal_member_alone(text: Seq<u8>, pos: int, key: Seq<u8>, a: TxText, b: TxText)
    requires
        agree_on(Section::Terminal, a, b),
    ensures
        terminal_member(text, pos, key, b).1 == terminal_member(text, pos, key, a).1,
        terminal_member(text, pos, key, b).0 == with_section(
            Section::Terminal,
            terminal_member(text, pos, key, a).0,
            b,
        ),
{
}

proof fn lemma_last_transaction_member_alone(text: Seq<u8>, pos: int, key: Seq<u8>, a: TxText, b: TxText)
    requires
        agree_on(Section::LastTransaction, a, b),
    ensures
        last_transaction_member(text, pos, key, b).1 == last_transaction_member(text, pos, key, a).1,
        last_transaction_member(text, pos, key, b).0 == with_section(
            Section::LastTransaction,
            last_transaction_member(text, pos, key, a).0,
            b,
        ),
{
}

proof fn lemma_member_alone(
    section: Section,
    text: Seq<u8>,
    pos: int,
    key: Seq<u8>,
    a: TxText,
    b: TxText,
)
    requires
        agree_on(section, a, b),
    ensures
        member(section, text, pos, key, b).1 == member(section, text, pos, key, a).1,
        member(section, text, pos, key, b).0 == with_section(
            section,
            member(section, text, pos, key, a).0,
            b,
        ),
{
    match section {
        Section::Transaction => lemma_transaction_member_alone(text, pos, key, a, b),
        Section::Customer => lemma_customer_member_alone(text, pos, key, a, b),
        Section::Merchant => lemma_merchant_member_alone(text, pos, key, a, b),
        Section::Terminal => lemma_terminal_member_alone(text, pos, key, a, b),
        Section::LastTransaction => lemma_last_transaction_member_alone(text, pos, key, a, b),
    }
}

proof fn lemma_members_alone(section: Section, text: Seq<u8>, pos: int, a: TxText, b: TxText)
    requires
        0 <= pos <= text.len(),
        agree_on(section, a, b),
    ensures
        members(section, text, pos, b).1 == members(section, text, pos, a).1,
        members(section, text, pos, b).0 == with_section(
            section,
            members(section, text, pos, a).0,
            b,
        ),
    decreases text.len() - pos,
{
    lemma_key_at(text, pos);
    if let (Some(key), next) = key_at(text, pos) {
        lemma_colon_at(text, next);
        if let (true, value) = colon_at(text, next) {
            lemma_member(section, text, value, key, a);
            lemma_member_alone(section, text, value, key, a, b);
            let (a2, rest) = member(section, text, value, key, a);
            let b2 = member(section, text, value, key, b).0;
            lemma_members_alone(section, text, rest, a2, b2);
        }
    }
}

/// A section changes its own fields only, and what it makes of them depends on nothing but
/// them.
pub proof fn law_section_alone(section: Section, text: Seq<u8>, pos: int, a: TxText, b: TxText)
    requires
        0 <= pos <= text.len(),
        agree_on(section, a, b),
    ensures
        section_at(section, text, pos, b).1 == section_at(section, text, pos, a).1,
        section_at(section, text, pos, b).0 == with_section(
            section,
            section_at(section, text, pos, a).0,
            b,
        ),
{
    lemma_after_space(text, pos);
    let first = after_space(text, pos);
    if byte_at(text, first) == Some(OPEN_BRACE) {
        lemma_members_alone(section, text, first + 1, a, b);
    }
}

/// Two different sections may come in either order.
pub proof fn law_sections_commute(
    s: Section,
    p: int,
    t: Section,
    q: int,
    text: Seq<u8>,
    tx: TxText,
)
    requires
        s != t,
        0 <= p <= text.len(),
        0 <= q <= text.len(),
    ensures
        ({
            let s_first = section_at(s, text, p, tx);
            let t_first = section_at(t, text, q, tx);
            let then_t = section_at(t, text, q, s_first.0);
            let then_s = section_at(s, text, p, t_first.0);
            &&& then_t.0 == then_s.0
            &&& then_t.1 == t_first.1
            &&& then_s.1 == s_first.1
        }),
{
    law_section_alone(s, text, p, tx, tx);
    law_section_alone(t, text, q, tx, tx);
    law_section_alone(t, text, q, tx, section_at(s, text, p, tx).0);
    law_section_alone(s, text, p, tx, section_at(t, text, q, tx).0);
}

/// A member with a closing brace behind it.
pub open spec fn closed(m: Seq<u8>) -> Seq<u8> {
    m.push(CLOSE_BRACE)
}

/// Where the value of a member starts.
pub open spec fn value_start(m: Seq<u8>) -> int {
    colon_at(closed(m), key_at(closed(m), 0).1).1
}

/// The section that a member names.
pub open spec fn named(m: Seq<u8>) -> Option<Section> {
    match key_at(closed(m), 0).0 {
        Some(key) => section_named(key),
        None => None,
    }
}

/// Where reading the value of a member ends.
pub open spec fn value_end(m: Seq<u8>) -> int {
    match named(m) {
        Some(section) => section_at(section, closed(m), value_start(m), unread()).1,
        None => after_value(closed(m), value_start(m)),
    }
}

/// What a member says, if it is a section: a transaction of which nothing else has been read.
pub open spec fn said(m: Seq<u8>) -> TxText {
    match named(m) {
        Some(section) => section_at(section, closed(m), value_start(m), unread()).0,
        None => unread(),
    }
}

/// A key, a colon and a value, and nothing else but white space: reading starts at the quote of
/// the key and goes on to the end, and no further. An object that is read as a section ends with
/// its brace.
pub open spec fn is_member(m: Seq<u8>) -> bool {
    let first = after_space(closed(m), value_start(m));
    &&& byte_at(closed(m), after_space(closed(m), 0)) == Some(QUOTE)
    &&& key_at(closed(m), 0).0 is Some
    &&& colon_at(closed(m), key_at(closed(m), 0).1).0
    &&& first < m.len()
    &&& after_space(closed(m), value_end(m)) == m.len()
    &&& named(m) is Some && closed(m)[first] == OPEN_BRACE ==> closed(m)[value_end(m) - 1]
        == CLOSE_BRACE
}

/// The first `n` members with commas between them.
pub open spec fn listed(ms: Seq<Seq<u8>>, n: nat) -> Seq<u8>
    decreases n,
{
    if n == 0 {
        Seq::empty()
    } else if n == 1 {
        ms[0]
    } else {
        listed(ms, (n - 1) as nat).push(COMMA) + ms[n - 1]
    }
}

/// The object with the given members, after white space and before anything at all.
pub open spec fn object(before: Seq<u8>, ms: Seq<Seq<u8>>, behind: Seq<u8>) -> Seq<u8> {
    before.push(OPEN_BRACE) + closed(listed(ms, ms.len())) + behind
}

/// `text` is white space.
pub open spec fn is_blank(text: Seq<u8>) -> bool {
    forall|k: int| 0 <= k < text.len() ==> is_json_space(#[trigger] text[k])
}

/// What the first `n` members say together.
pub open spec fn gathered(ms: Seq<Seq<u8>>, n: nat) -> TxText
    decreases n,
{
    if n == 0 {
        unread()
    } else {
        let before = gathered(ms, (n - 1) as nat);
        match named(ms[n - 1]) {
            Some(section) => with_section(section, said(ms[n - 1]), before),
            None => before,
        }
    }
}

/// No section is named twice.
pub open spec fn is_unrepeated(ms: Seq<Seq<u8>>) -> bool {
    forall|i: int, j: int|
        0 <= i < j < ms.len() && named(#[trigger] ms[i]) is Some ==> named(ms[i]) != named(
            #[trigger] ms[j],
        )
}

/// One member is read: what it says is added, and reading goes on behind it.
proof fn lemma_read_member(text: Seq<u8>, pos: int, start: int, m: Seq<u8>, tx: TxText)
    requires
        is_member(m),
        0 <= start,
        in_common(closed(m), text, start, 0, m.len() as int),
        !is_json_space(text[start + m.len()]),
        0 <= pos <= start,
        pos == start || (after_space(text, pos) == start - 1 && text[start - 1] == COMMA),
        named(m) matches Some(section) ==> agree_on(section, unread(), tx),
    ensures
        ({
            let rest = start + value_end(m);
            let tx2 = match named(m) {
                Some(section) => with_section(section, said(m), tx),
                None => tx,
            };
            &&& sections(text, pos, tx) == sections(text, rest, tx2)
            &&& 0 <= rest <= start + m.len()
            &&& after_space(text, rest) == start + m.len()
        }),
{
    let a = closed(m);
    let hi = m.len() as int;
    lemma_space_local(a, text, start, 0, hi, 0);
    let quote = after_space(a, 0);
    assert(quote < hi);
    assert(a[quote] == text[quote + start]);
    lemma_key_at(a, 0);
    let (key, next) = (key_at(a, 0).0->0, key_at(a, 0).1);
    lemma_colon_at(a, next);
    let value = value_start(m);
    lemma_after_value(a, value);
    if let Some(section) = named(m) {
        lemma_section_at(section, a, value, unread());
    }
    let end = value_end(m);
    lemma_after_space(a, end);
    assert(next <= value <= end <= hi);
    lemma_after_space(a, next);
    lemma_after_space(a, value);
    lemma_key_local(a, text, start, 0, hi, 0);
    assert(key_at(text, start) == (Some(key), next + start));
    lemma_after_space(text, pos);
    lemma_after_space(text, start);
    assert(key_at(text, pos) == key_at(text, start));
    lemma_colon_local(a, text, start, 0, hi, next);
    assert(colon_at(text, next + start) == (true, value + start));
    lemma_space_local(a, text, start, 0, hi, end);
    match section_named(key) {
        Some(section) => {
            law_section_local(section, a, text, start, 0, hi, value, unread());
            law_section_alone(section, text, value + start, unread(), tx);
        },
        None => {
            lemma_value_local(a, text, start, 0, hi, value);
        },
    }
}

/// A section that none of the first `n` members names has its fields as at the start; one that
/// a member names has what that member says.
#[verifier::spinoff_prover]
#[verifier::rlimit(40)]
proof fn lemma_gathered(ms: Seq<Seq<u8>>, n: nat, section: Section)
    requires
        n <= ms.len(),
        is_unrepeated(ms),
    ensures
        (forall|i: int| 0 <= i < n ==> named(#[trigger] ms[i]) != Some(section)) ==> agree_on(
            section,
            unread(),
            gathered(ms, n),
        ),
        forall|i: int|
            0 <= i < n && named(#[trigger] ms[i]) == Some(section) ==> agree_on(
                section,
                said(ms[i]),
                gathered(ms, n),
            ),
        gathered(ms, n).complete == unread().complete,
    decreases n,
{
    if n > 0 {
        lemma_gathered(ms, (n - 1) as nat, section);
        let last = named(ms[n - 1]);
        if last == Some(section) {
            assert forall|i: int|
                0 <= i < n && named(#[trigger] ms[i]) == Some(section) implies agree_on(
                section,
                said(ms[i]),
                gathered(ms, n),
            ) by {
                if i < n - 1 {
                    assert(named(ms[i]) != named(ms[n - 1]));
                }
            }
        }
    }
}

proof fn lemma_listed(ms: Seq<Seq<u8>>, i: nat)
    requires
        0 < i < ms.len(),
    ensures
        listed(ms, i + 1) == listed(ms, i).push(COMMA) + ms[i as int],
{
}

/// The first members of a list head it.
proof fn lemma_listed_prefix(ms: Seq<Seq<u8>>, i: nat, n: nat)
    requires
        i <= n <= ms.len(),
    ensures
        listed(ms, i).len() <= listed(ms, n).len(),
        listed(ms, n).take(listed(ms, i).len() as int) == listed(ms, i),
        0 < i < n ==> listed(ms, i).len() < listed(ms, n).len() && listed(ms, n)[listed(
            ms,
            i,
        ).len() as int] == COMMA,
    decreases n,
{
    if i == n {
        assert(listed(ms, n).take(listed(ms, n).len() as int) =~= listed(ms, n));
    } else if i == 0 {
        assert(listed(ms, n).take(0) =~= Seq::<u8>::empty());
    } else {
        let shorter = listed(ms, (n - 1) as nat);
        let len = listed(ms, i).len() as int;
        lemma_listed_prefix(ms, i, (n - 1) as nat);
        assert(listed(ms, n) == shorter.push(COMMA) + ms[n - 1]);
        assert(listed(ms, n).take(len) =~= shorter.take(len));
        if i == n - 1 {
            assert(listed(ms, n)[len] == shorter.push(COMMA)[len]);
        } else {
            assert(listed(ms, n)[len] == shorter[len]);
        }
    }
}

/// Where the `i`-th of the members of an object starts that is opened before `from`.
spec fn member_start(ms: Seq<Seq<u8>>, from: int, i: nat) -> int {
    from + listed(ms, i).len() + if i == 0 {
        0int
    } else {
        1
    }
}

/// A member stands in the object where it starts, with an end mark behind it.
proof fn lemma_member_in_object(before: Seq<u8>, ms: Seq<Seq<u8>>, behind: Seq<u8>, i: nat)
    requires
        i < ms.len(),
    ensures
        in_common(
            closed(ms[i as int]),
            object(before, ms, behind),
            member_start(ms, before.len() as int + 1, i),
            0,
            ms[i as int].len() as int,
        ),
        !is_json_space(
            object(before, ms, behind)[member_start(ms, before.len() as int + 1, i)
                + ms[i as int].len()],
        ),
        member_start(ms, before.len() as int + 1, i) + ms[i as int].len() == before.len() + 1 + listed(
            ms,
            i + 1,
        ).len(),
        i > 0 ==> object(before, ms, behind)[member_start(ms, before.len() as int + 1, i) - 1] == COMMA,
{
    let text = object(before, ms, behind);
    let n = ms.len();
    let m = ms[i as int];
    let whole = listed(ms, n);
    let from = before.len() as int + 1;
    let start = member_start(ms, from, i);
    let upto = listed(ms, i + 1);
    lemma_listed_prefix(ms, i + 1, n);
    lemma_listed_prefix(ms, i, n);
    if i > 0 {
        lemma_listed(ms, i);
    }
    assert(start + m.len() == from + upto.len());
    assert forall|k: int| 0 <= k < whole.len() implies text[from + k] == #[trigger] whole[k] by {
        assert(closed(whole)[k] == whole[k]);
    }
    assert(closed(whole)[whole.len() as int] == CLOSE_BRACE);
    assert forall|x: int| 0 <= x < m.len() implies #[trigger] closed(m)[x] == text[x + start] by {
        let k = start - from + x;
        assert(upto[k] == m[x]);
        assert(whole.take(upto.len() as int)[k] == whole[k]);
        assert(text[from + k] == whole[k]);
    }
    if i + 1 < n {
        assert(whole[upto.len() as int] == COMMA);
        assert(text[from + upto.len()] == whole[upto.len() as int]);
    } else {
        assert(upto == whole);
        assert(text[from + whole.len()] == CLOSE_BRACE);
    }
    if i > 0 {
        let len = listed(ms, i).len() as int;
        assert(whole[len] == COMMA);
        assert(text[from + len] == whole[len]);
    }
}

/// The members of an object are read one after the other.
proof fn lemma_read_members(
    before: Seq<u8>,
    ms: Seq<Seq<u8>>,
    behind: Seq<u8>,
    i: nat,
    pos: int,
)
    requires
        forall|k: int| 0 <= k < ms.len() ==> is_member(#[trigger] ms[k]),
        is_unrepeated(ms),
        i <= ms.len(),
        0 <= pos,
        i == 0 ==> pos == before.len() + 1,
        i > 0 ==> pos <= before.len() + 1 + listed(ms, i).len() && after_space(
            object(before, ms, behind),
            pos,
        ) == before.len() + 1 + listed(ms, i).len(),
    ensures
        sections(object(before, ms, behind), pos, gathered(ms, i)) == (TxText {
            complete: true,
            ..gathered(ms, ms.len())
        }),
    decreases ms.len() - i,
{
    let text = object(before, ms, behind);
    let from = before.len() as int + 1;
    if i < ms.len() {
        let m = ms[i as int];
        let start = member_start(ms, from, i);
        lemma_member_in_object(before, ms, behind, i);
        if let Some(section) = named(m) {
            lemma_gathered(ms, i, section);
            assert forall|k: int| 0 <= k < i implies named(#[trigger] ms[k]) != Some(section) by {
                if named(ms[k]) is Some {
                    assert(named(ms[k]) != named(ms[i as int]));
                }
            }
        }
        lemma_read_member(text, pos, start, m, gathered(ms, i));
        lemma_read_members(before, ms, behind, i + 1, start + value_end(m));
    } else {
        let end = from + listed(ms, ms.len()).len();
        assert(closed(listed(ms, ms.len()))[listed(ms, ms.len()).len() as int] == CLOSE_BRACE);
        assert(text[end] == CLOSE_BRACE);
        assert(after_space(text, pos) == end);
    }
}

proof fn lemma_blank(before: Seq<u8>, text: Seq<u8>, pos: int)
    requires
        is_blank(before),
        0 <= pos <= before.len() < text.len(),
        text.take(before.len() as int) == before,
        !is_json_space(text[before.len() as int]),
    ensures
        after_space(text, pos) == before.len(),
    decreases before.len() - pos,
{
    if pos < before.len() {
        assert(text.take(before.len() as int)[pos] == text[pos]);
        assert(is_json_space(before[pos]));
        lemma_blank(before, text, pos + 1);
    }
}

/// What an object says is what its members say together.
pub proof fn law_object_gathers(before: Seq<u8>, ms: Seq<Seq<u8>>, behind: Seq<u8>)
    requires
        is_blank(before),
        forall|k: int| 0 <= k < ms.len() ==> is_member(#[trigger] ms[k]),
        is_unrepeated(ms),
        object(before, ms, behind).len() <= MAX_BODY,
    ensures
        scanned(object(before, ms, behind)) == (TxText {
            complete: true,
            ..gathered(ms, ms.len())
        }),
{
    let text = object(before, ms, behind);
    let at = before.len() as int;
    assert(text[at] == before.push(OPEN_BRACE)[at]);
    assert(text.take(at) =~= before);
    lemma_blank(before, text, 0);
    lemma_read_members(before, ms, behind, 0, at + 1);
}

/// An object without members says nothing, whatever space stands in it.
pub proof fn law_empty_object(before: Seq<u8>, gap: Seq<u8>, behind: Seq<u8>)
    requires
        is_blank(before),
        is_blank(gap),
        (before.push(OPEN_BRACE) + closed(gap) + behind).len() <= MAX_BODY,
    ensures
        scanned(before.push(OPEN_BRACE) + closed(gap) + behind) == (TxText {
            complete: true,
            ..unread()
        }),
{
    let text = before.push(OPEN_BRACE) + closed(gap) + behind;
    let at = before.len() as int;
    let end = at + 1 + gap.len();
    assert(text[at] == before.push(OPEN_BRACE)[at]);
    assert(text.take(at) =~= before);
    lemma_blank(before, text, 0);
    assert(text[end] == closed(gap)[gap.len() as int]);
    assert forall|k: int| at + 1 <= k < end implies is_json_space(#[trigger] text[k]) by {
        assert(text[k] == gap[k - at - 1]);
    }
    lemma_blank_runs(text, at + 1, end);
}

/// A member, and the white space around it.
pub struct Spaced {
    pub before: Seq<u8>,
    pub text: Seq<u8>,
    pub behind: Seq<u8>,
}

impl Spaced {
    pub open spec fn wf(self) -> bool {
        is_blank(self.before) && is_blank(self.behind)
    }

    pub open spec fn written(self) -> Seq<u8> {
        self.before + self.text + self.behind
    }
}

/// The members without the space around them.
pub open spec fn texts(ms: Seq<Spaced>) -> Seq<Seq<u8>> {
    ms.map_values(|m: Spaced| m.text)
}

/// The members with the space around them.
pub open spec fn all_written(ms: Seq<Spaced>) -> Seq<Seq<u8>> {
    ms.map_values(|m: Spaced| m.written())
}

proof fn lemma_blank_runs(text: Seq<u8>, from: int, to: int)
    requires
        0 <= from <= to < text.len(),
        forall|k: int| from <= k < to ==> is_json_space(#[trigger] text[k]),
    ensures
        after_space(text, from) == after_space(text, to),
    decreases to - from,
{
    if from < to {
        assert(is_json_space(text[from]));
        lemma_blank_runs(text, from + 1, to);
    }
}

/// White space around a member changes nothing.
pub proof fn law_space_around(m: Spaced)
    requires
        m.wf(),
        is_member(m.text),
    ensures
        is_member(m.written()),
        named(m.written()) == named(m.text),
        said(m.written()) == said(m.text),
{
    let a = closed(m.text);
    let b = closed(m.written());
    let shift = m.before.len() as int;
    let hi = m.text.len() as int;
    let full = m.written().len() as int;
    assert forall|x: int| 0 <= x < hi implies #[trigger] a[x] == b[x + shift] by {
        assert(m.written()[x + shift] == m.text[x]);
    }
    assert forall|k: int| 0 <= k < shift implies is_json_space(#[trigger] b[k]) by {
        assert(b[k] == m.before[k]);
    }
    assert forall|k: int| hi + shift <= k < full implies is_json_space(#[trigger] b[k]) by {
        assert(b[k] == m.behind[k - hi - shift]);
    }
    assert(b[full] == CLOSE_BRACE);
    if hi + shift < full {
        assert(is_json_space(b[hi + shift]));
    }
    assert(in_common(a, b, shift, 0, hi));
    lemma_after_space(a, 0);
    lemma_space_local(a, b, shift, 0, hi, 0);
    let quote = after_space(a, 0);
    lemma_key_at(a, 0);
    let next = key_at(a, 0).1;
    lemma_colon_at(a, next);
    lemma_after_space(a, next);
    let value = value_start(m.text);
    lemma_after_space(a, value);
    lemma_after_value(a, value);
    if let Some(section) = named(m.text) {
        lemma_section_at(section, a, value, unread());
    }
    let end = value_end(m.text);
    lemma_after_space(a, end);
    assert(a[quote] == b[quote + shift]);
    lemma_key_local(a, b, shift, 0, hi, 0);
    lemma_blank_runs(b, 0, shift);
    lemma_after_space(b, shift);
    assert(key_at(b, 0) == key_at(b, shift));
    lemma_colon_local(a, b, shift, 0, hi, next);
    assert(value_start(m.written()) == value + shift);
    lemma_space_local(a, b, shift, 0, hi, value);
    let first = after_space(a, value);
    assert(a[first] == b[first + shift]);
    match named(m.text) {
        Some(section) => {
            law_section_local(section, a, b, shift, 0, hi, value, unread());
            if a[first] == OPEN_BRACE {
                assert(a[end - 1] == b[end - 1 + shift]);
            }
        },
        None => {
            lemma_value_local(a, b, shift, 0, hi, value);
        },
    }
    assert(value_end(m.written()) == end + shift);
    assert forall|k: int| end + shift <= k < full implies is_json_space(#[trigger] b[k]) by {
        if k < hi + shift {
            assert(a[k - shift] == b[k - shift + shift]);
            assert(is_json_space(a[k - shift]));
        }
    }
    lemma_blank_runs(b, end + shift, full);
}

/// The members of a body may come in any order, with any space around them, and others that name
/// no section may stand among them: what the body says stays the same.
pub proof fn law_member_order(
    before1: Seq<u8>,
    ms1: Seq<Spaced>,
    behind1: Seq<u8>,
    before2: Seq<u8>,
    ms2: Seq<Spaced>,
    behind2: Seq<u8>,
)
    requires
        is_blank(before1),
        is_blank(before2),
        forall|k: int| 0 <= k < ms1.len() ==> (#[trigger] ms1[k]).wf() && is_member(ms1[k].text),
        forall|k: int| 0 <= k < ms2.len() ==> (#[trigger] ms2[k]).wf() && is_member(ms2[k].text),
        is_unrepeated(texts(ms1)),
        is_unrepeated(texts(ms2)),
        forall|m: Seq<u8>|
            #![trigger texts(ms1).contains(m)]
            #![trigger texts(ms2).contains(m)]
            named(m) is Some ==> texts(ms1).contains(m) == texts(ms2).contains(m),
        object(before1, all_written(ms1), behind1).len() <= MAX_BODY,
        object(before2, all_written(ms2), behind2).len() <= MAX_BODY,
    ensures
        scanned(object(before1, all_written(ms1), behind1)) == scanned(
            object(before2, all_written(ms2), behind2),
        ),
{
    lemma_written_members(ms1);
    lemma_written_members(ms2);
    law_object_gathers(before1, all_written(ms1), behind1);
    law_object_gathers(before2, all_written(ms2), behind2);
    lemma_same_section(texts(ms1), texts(ms2), Section::Transaction);
    lemma_same_section(texts(ms1), texts(ms2), Section::Customer);
    lemma_same_section(texts(ms1), texts(ms2), Section::Merchant);
    lemma_same_section(texts(ms1), texts(ms2), Section::Terminal);
    lemma_same_section(texts(ms1), texts(ms2), Section::LastTransaction);
}

/// Written members are members, and say together what they say without the space.
proof fn lemma_written_members(ms: Seq<Spaced>)
    requires
        forall|k: int| 0 <= k < ms.len() ==> (#[trigger] ms[k]).wf() && is_member(ms[k].text),
        is_unrepeated(texts(ms)),
    ensures
        forall|k: int| 0 <= k < ms.len() ==> is_member(#[trigger] all_written(ms)[k]),
        is_unrepeated(all_written(ms)),
        gathered(all_written(ms), ms.len()) == gathered(texts(ms), ms.len()),
{
    assert forall|k: int| 0 <= k < ms.len() implies is_member(#[trigger] all_written(ms)[k])
        && named(all_written(ms)[k]) == named(texts(ms)[k]) && said(all_written(ms)[k]) == said(
        texts(ms)[k],
    ) by {
        assert(ms[k].wf());
        law_space_around(ms[k]);
    }
    assert forall|i: int, j: int|
        0 <= i < j < ms.len() && named(#[trigger] all_written(ms)[i]) is Some implies named(
        all_written(ms)[i],
    ) != named(#[trigger] all_written(ms)[j]) by {
        assert(named(texts(ms)[i]) != named(texts(ms)[j]));
    }
    lemma_gathered_alike(all_written(ms), texts(ms), ms.len());
}

proof fn lemma_gathered_alike(a: Seq<Seq<u8>>, b: Seq<Seq<u8>>, n: nat)
    requires
        forall|k: int|
            0 <= k < n ==> named(#[trigger] a[k]) == named(b[k]) && said(a[k]) == said(b[k]),
    ensures
        gathered(a, n) == gathered(b, n),
    decreases n,
{
    if n > 0 {
        lemma_gathered_alike(a, b, (n - 1) as nat);
        assert(named(a[n - 1]) == named(b[n - 1]));
    }
}

proof fn lemma_same_section(ms1: Seq<Seq<u8>>, ms2: Seq<Seq<u8>>, section: Section)
    requires
        is_unrepeated(ms1),
        is_unrepeated(ms2),
        forall|m: Seq<u8>|
            #![trigger ms1.contains(m)]
            #![trigger ms2.contains(m)]
            named(m) is Some ==> ms1.contains(m) == ms2.contains(m),
    ensures
        agree_on(section, gathered(ms1, ms1.len()), gathered(ms2, ms2.len())),
        gathered(ms1, ms1.len()).complete == gathered(ms2, ms2.len()).complete,
{
    lemma_gathered(ms1, ms1.len(), section);
    lemma_gathered(ms2, ms2.len(), section);
    if exists|i: int| 0 <= i < ms1.len() && named(#[trigger] ms1[i]) == Some(section) {
        let i = choose|i: int| 0 <= i < ms1.len() && named(#[trigger] ms1[i]) == Some(section);
        assert(ms1.contains(ms1[i]));
        assert(ms2.contains(ms1[i]));
        let j = choose|j: int| 0 <= j < ms2.len() && ms2[j] == ms1[i];
        assert(named(ms2[j]) == Some(section));
    } else {
        assert forall|j: int| 0 <= j < ms2.len() implies named(#[trigger] ms2[j]) != Some(
            section,
        ) by {
            if named(ms2[j]) == Some(section) {
                assert(ms2.contains(ms2[j]));
                assert(ms1.contains(ms2[j]));
                let i = choose|i: int| 0 <= i < ms1.len() && ms1[i] == ms2[j];
                assert(named(ms1[i]) == Some(section));
            }
        }
    }
}

} // verus!
