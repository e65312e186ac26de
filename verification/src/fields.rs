//! What is written in a field is what is read of it, whatever stands around it.
use vstd::prelude::*;
use vstd::string::StringSliceAdditionalSpecFns;

use crate::document::{
    are_fields, are_parts, has_field, is_section, lemma_document_told, suits, told, told_from,
    told_part, told_parts, Document, Field, Part, PartValue, Value,
};
use crate::iso::{hour_and_weekday, unix_seconds};
use crate::json::{after_space, colon_at, key_at, slice_view, string_at};
use crate::parser::{
    contents, is_literal, known_items, members, parse_transaction, sections, unread, Mcc, MccText,
    ScannedTx, Section, TxText,
};
use crate::written::{
    first_bytes, is_contents, is_gap, is_gap_byte, law_decimal_is_literal, lemma_gap,
    lemma_gap_runs, lemma_kept, lemma_split, lemma_string, quoted, stands, Item, Literal,
};

verus! {

/// Nothing but what a section says under one key.
spec fn only(section: Section, key: Seq<u8>, tx: TxText) -> TxText {
    match section {
        Section::Transaction => if key == "amount".spec_bytes() {
            TxText { amount: tx.amount, ..unread() }
        } else if key == "installments".spec_bytes() {
            TxText { installments: tx.installments, ..unread() }
        } else if key == "requested_at".spec_bytes() {
            TxText {
                requested_at_seconds: tx.requested_at_seconds,
                hour_of_day: tx.hour_of_day,
                day_of_week: tx.day_of_week,
                parse_ok: tx.parse_ok,
                ..unread()
            }
        } else {
            unread()
        },
        Section::Customer => if key == "avg_amount".spec_bytes() {
            TxText { customer_avg_amount: tx.customer_avg_amount, ..unread() }
        } else if key == "tx_count_24h".spec_bytes() {
            TxText { tx_count_24h: tx.tx_count_24h, ..unread() }
        } else if key == "known_merchants".spec_bytes() {
            TxText { known_merchants: tx.known_merchants, ..unread() }
        } else {
            unread()
        },
        Section::Merchant => if key == "id".spec_bytes() {
            TxText { merchant_id: tx.merchant_id, ..unread() }
        } else if key == "mcc".spec_bytes() {
            TxText { mcc: tx.mcc, ..unread() }
        } else if key == "avg_amount".spec_bytes() {
            TxText { merchant_avg_amount: tx.merchant_avg_amount, ..unread() }
        } else {
            unread()
        },
        Section::Terminal => if key == "is_online".spec_bytes() {
            TxText { is_online: tx.is_online, ..unread() }
        } else if key == "card_present".spec_bytes() {
            TxText { card_present: tx.card_present, ..unread() }
        } else if key == "km_from_home".spec_bytes() {
            TxText { km_from_home: tx.km_from_home, ..unread() }
        } else {
            unread()
        },
        Section::LastTransaction => if key == "timestamp".spec_bytes() {
            TxText { last_tx_seconds: tx.last_tx_seconds, ..unread() }
        } else if key == "km_from_current".spec_bytes() {
            TxText { km_from_last_tx: tx.km_from_last_tx, ..unread() }
        } else {
            unread()
        },
    }
}

/// A field tells what its own key stands for and nothing else, and that does not depend on what
/// else was told.
proof fn lemma_only(section: Section, f: Field, tx: TxText, own: Section, key: Seq<u8>)
    ensures
        section != own || f.key != key ==> only(own, key, told(section, f, tx)) == only(
            own,
            key,
            tx,
        ),
        only(section, f.key, told(section, f, tx)) == told(section, f, only(section, f.key, tx)),
{
    match section {
        Section::Transaction => {},
        Section::Customer => {},
        Section::Merchant => {},
        Section::Terminal => {},
        Section::LastTransaction => {},
    }
}

proof fn lemma_only_fields(
    section: Section,
    fields: Seq<Field>,
    i: int,
    tx: TxText,
    own: Section,
    key: Seq<u8>,
)
    requires
        0 <= i <= fields.len(),
        section != own || forall|k: int|
            i <= k < fields.len() ==> (#[trigger] fields[k]).key != key,
    ensures
        only(own, key, told_from(section, fields, i, tx)) == only(own, key, tx),
    decreases fields.len() - i,
{
    if i < fields.len() {
        lemma_only(section, fields[i], tx, own, key);
        lemma_only_fields(section, fields, i + 1, told(section, fields[i], tx), own, key);
    }
}

proof fn lemma_only_field(section: Section, fields: Seq<Field>, i: int, tx: TxText, j: int)
    requires
        0 <= i <= j < fields.len(),
        has_field(fields, j, fields[j].key, fields[j].value),
        only(section, fields[j].key, tx) == unread(),
    ensures
        only(section, fields[j].key, told_from(section, fields, i, tx)) == told(
            section,
            fields[j],
            unread(),
        ),
    decreases fields.len() - i,
{
    let key = fields[j].key;
    lemma_only(section, fields[i], tx, section, key);
    if i == j {
        lemma_only_fields(section, fields, i + 1, told(section, fields[i], tx), section, key);
    } else {
        lemma_only_field(section, fields, i + 1, told(section, fields[i], tx), j);
    }
}

proof fn lemma_only_parts(parts: Seq<Part>, i: int, tx: TxText, section: Section, key: Seq<u8>)
    requires
        0 <= i <= parts.len(),
        forall|k: int| i <= k < parts.len() ==> !tells(#[trigger] parts[k], section, key),
    ensures
        only(section, key, told_parts(parts, i, tx)) == only(section, key, tx),
    decreases parts.len() - i,
{
    if i < parts.len() {
        let p = parts[i];
        assert(!tells(p, section, key));
        if let PartValue::Section(own, fields) = p.value {
            lemma_only_fields(own, fields, 0, tx, section, key);
        }
        lemma_only_parts(parts, i + 1, told_part(p, tx), section, key);
    }
}

proof fn lemma_only_part(
    doc: Document,
    i: int,
    tx: TxText,
    at: int,
    section: Section,
    fields: Seq<Field>,
    j: int,
)
    requires
        0 <= i <= at,
        doc.has_section(at, section, fields),
        0 <= j < fields.len(),
        has_field(fields, j, fields[j].key, fields[j].value),
        only(section, fields[j].key, tx) == unread(),
    ensures
        only(section, fields[j].key, told_parts(doc.parts, i, tx)) == told(
            section,
            fields[j],
            unread(),
        ),
    decreases at - i,
{
    let key = fields[j].key;
    let p = doc.parts[i];
    if i == at {
        lemma_only_field(section, fields, 0, tx, j);
        assert forall|k: int| i + 1 <= k < doc.parts.len() implies !tells(
            #[trigger] doc.parts[k],
            section,
            key,
        ) by {
            assert(!is_section(doc.parts[k], section));
        }
        lemma_only_parts(doc.parts, i + 1, told_part(p, tx), section, key);
    } else {
        assert(!is_section(p, section));
        if let PartValue::Section(own, others) = p.value {
            lemma_only_fields(own, others, 0, tx, section, key);
        }
        lemma_only_part(doc, i + 1, told_part(p, tx), at, section, fields, j);
    }
}

/// The part is that section and has a field of that key.
pub open spec fn tells(part: Part, section: Section, key: Seq<u8>) -> bool {
    part.value matches PartValue::Section(own, fields) && own == section && exists|k: int|
        0 <= k < fields.len() && (#[trigger] fields[k]).key == key
}

/// No part of the document has the field.
pub open spec fn is_silent(doc: Document, section: Section, key: Seq<u8>) -> bool {
    forall|k: int| 0 <= k < doc.parts.len() ==> !tells(#[trigger] doc.parts[k], section, key)
}

proof fn lemma_landed(
    doc: Document,
    body: &[u8],
    r: ScannedTx<'_>,
    i: int,
    section: Section,
    fields: Seq<Field>,
    j: int,
)
    requires
        doc.wf(),
        body@ == doc.text(),
        call_ensures(parse_transaction, (body,), r),
        doc.has_section(i, section, fields),
        0 <= j < fields.len(),
        has_field(fields, j, fields[j].key, fields[j].value),
    ensures
        only(section, fields[j].key, r@) == told(section, fields[j], unread()),
        suits(section, fields[j].key, fields[j].value),
{
    lemma_document_told(doc);
    assert(only(section, fields[j].key, unread()) == unread());
    lemma_only_part(doc, 0, unread(), i, section, fields, j);
    assert(doc.parts[i].wf());
    assert(fields[j].wf());
}

proof fn lemma_keys()
    ensures
        "amount".spec_bytes() != "installments".spec_bytes(),
        "amount".spec_bytes() != "requested_at".spec_bytes(),
        "installments".spec_bytes() != "requested_at".spec_bytes(),
        "avg_amount".spec_bytes() != "tx_count_24h".spec_bytes(),
        "avg_amount".spec_bytes() != "known_merchants".spec_bytes(),
        "tx_count_24h".spec_bytes() != "known_merchants".spec_bytes(),
        "id".spec_bytes() != "mcc".spec_bytes(),
        "id".spec_bytes() != "avg_amount".spec_bytes(),
        "mcc".spec_bytes() != "avg_amount".spec_bytes(),
        "is_online".spec_bytes() != "card_present".spec_bytes(),
        "is_online".spec_bytes() != "km_from_home".spec_bytes(),
        "card_present".spec_bytes() != "km_from_home".spec_bytes(),
        "timestamp".spec_bytes() != "km_from_current".spec_bytes(),
{
    reveal_strlit("amount");
    reveal_strlit("installments");
    reveal_strlit("requested_at");
    reveal_strlit("avg_amount");
    reveal_strlit("tx_count_24h");
    reveal_strlit("known_merchants");
    reveal_strlit("id");
    reveal_strlit("mcc");
    reveal_strlit("is_online");
    reveal_strlit("card_present");
    reveal_strlit("km_from_home");
    reveal_strlit("timestamp");
    reveal_strlit("km_from_current");
    assert("amount".is_ascii());
    assert("installments".is_ascii());
    assert("requested_at".is_ascii());
    assert("avg_amount".is_ascii());
    assert("tx_count_24h".is_ascii());
    assert("known_merchants".is_ascii());
    assert("id".is_ascii());
    assert("mcc".is_ascii());
    assert("is_online".is_ascii());
    assert("card_present".is_ascii());
    assert("km_from_home".is_ascii());
    assert("timestamp".is_ascii());
    assert("km_from_current".is_ascii());
    assert("amount".spec_bytes().len() == 6 && "amount".spec_bytes()[0] == 0x61);
    assert("installments".spec_bytes().len() == 12 && "installments".spec_bytes()[0] == 0x69);
    assert("requested_at".spec_bytes().len() == 12 && "requested_at".spec_bytes()[0] == 0x72);
    assert("avg_amount".spec_bytes().len() == 10 && "avg_amount".spec_bytes()[0] == 0x61);
    assert("tx_count_24h".spec_bytes().len() == 12 && "tx_count_24h".spec_bytes()[0] == 0x74);
    assert("known_merchants".spec_bytes().len() == 15 && "known_merchants".spec_bytes()[0] == 0x6b);
    assert("id".spec_bytes().len() == 2 && "id".spec_bytes()[0] == 0x69);
    assert("mcc".spec_bytes().len() == 3 && "mcc".spec_bytes()[0] == 0x6d);
    assert("is_online".spec_bytes().len() == 9 && "is_online".spec_bytes()[0] == 0x69);
    assert("card_present".spec_bytes().len() == 12 && "card_present".spec_bytes()[0] == 0x63);
    assert("km_from_home".spec_bytes().len() == 12 && "km_from_home".spec_bytes()[0] == 0x6b);
    assert("timestamp".spec_bytes().len() == 9 && "timestamp".spec_bytes()[0] == 0x74);
    assert("km_from_current".spec_bytes().len() == 15 && "km_from_current".spec_bytes()[0] == 0x6b);
}

/// Each field that is written in the terminal section is read as it is written: a truth value as
/// the flag of its key, and a distance as its literal.
pub proof fn law_terminal_read(
    doc: Document,
    body: &[u8],
    r: ScannedTx<'_>,
    i: int,
    fields: Seq<Field>,
    j: int,
    value: Value,
)
    requires
        doc.wf(),
        body@ == doc.text(),
        call_ensures(parse_transaction, (body,), r),
        doc.has_section(i, Section::Terminal, fields),
    ensures
        has_field(fields, j, "is_online".spec_bytes(), value) ==> r.is_online == (match value {
            Value::Truth { value: is_online, .. } => is_online,
            _ => false,
        }),
        has_field(fields, j, "card_present".spec_bytes(), value) ==> r.card_present == (match
            value {
            Value::Truth { value: card_present, .. } => card_present,
            _ => true,
        }),
        has_field(fields, j, "km_from_home".spec_bytes(), value) ==> slice_view(r.km_from_home)
            == value.literal(),
{
    lemma_keys();
    if 0 <= j < fields.len() && has_field(fields, j, fields[j].key, value) {
        lemma_landed(doc, body, r, i, Section::Terminal, fields, j);
        let got = only(Section::Terminal, fields[j].key, r@);
        assert(r@.is_online == r.is_online && r@.card_present == r.card_present);
        assert(fields[j].key == "is_online".spec_bytes() ==> got.is_online == r.is_online);
        assert(fields[j].key == "card_present".spec_bytes() ==> got.card_present
            == r.card_present);
        assert(fields[j].key == "km_from_home".spec_bytes() ==> got.km_from_home
            == slice_view(r.km_from_home));
    }
}

/// Each field that is written in the transaction section is read as it is written: an amount and a
/// number of installments as their literals, and the time of the request by its timestamp, which
/// must be readable.
pub proof fn law_transaction_read(
    doc: Document,
    body: &[u8],
    r: ScannedTx<'_>,
    i: int,
    fields: Seq<Field>,
    j: int,
    value: Value,
)
    requires
        doc.wf(),
        body@ == doc.text(),
        call_ensures(parse_transaction, (body,), r),
        doc.has_section(i, Section::Transaction, fields),
    ensures
        has_field(fields, j, "amount".spec_bytes(), value) ==> slice_view(r.amount)
            == value.literal(),
        has_field(fields, j, "installments".spec_bytes(), value) ==> slice_view(r.installments)
            == value.literal(),
        has_field(fields, j, "requested_at".spec_bytes(), value) && value is Text ==> {
            let stamp = value->Text_0;
            &&& r.parse_ok <==> hour_and_weekday(stamp) is Some && unix_seconds(stamp) is Some
            &&& hour_and_weekday(stamp) matches Some((hour, day)) ==> r.hour_of_day == hour
                && r.day_of_week == day
            &&& unix_seconds(stamp) matches Some(seconds) ==> r.requested_at_seconds == seconds
            &&& hour_and_weekday(stamp) is None ==> r.hour_of_day == 12 && r.day_of_week == 3
            &&& unix_seconds(stamp) is None ==> r.requested_at_seconds == 0
        },
        has_field(fields, j, "requested_at".spec_bytes(), value) && !(value is Text)
            ==> r.parse_ok && r.requested_at_seconds == 0 && r.hour_of_day == 12 && r.day_of_week
            == 3,
{
    lemma_keys();
    if 0 <= j < fields.len() && has_field(fields, j, fields[j].key, value) {
        lemma_landed(doc, body, r, i, Section::Transaction, fields, j);
        let got = only(Section::Transaction, fields[j].key, r@);
        assert(fields[j].key == "amount".spec_bytes() ==> got.amount == slice_view(r.amount));
        assert(fields[j].key == "installments".spec_bytes() ==> got.installments == slice_view(
            r.installments,
        ));
        assert(fields[j].key == "requested_at".spec_bytes() ==> got.parse_ok == r.parse_ok
            && got.hour_of_day == r.hour_of_day && got.day_of_week == r.day_of_week
            && got.requested_at_seconds == r.requested_at_seconds);
    }
}

/// Each field that is written in the customer section is read as it is written: an average and a
/// count as their literals, and of the known merchants the first 64 in their order, each by the
/// first 32 bytes of its id.
pub proof fn law_customer_read(
    doc: Document,
    body: &[u8],
    r: ScannedTx<'_>,
    i: int,
    fields: Seq<Field>,
    j: int,
    value: Value,
)
    requires
        doc.wf(),
        body@ == doc.text(),
        call_ensures(parse_transaction, (body,), r),
        doc.has_section(i, Section::Customer, fields),
    ensures
        has_field(fields, j, "avg_amount".spec_bytes(), value) ==> slice_view(
            r.customer_avg_amount,
        ) == value.literal(),
        has_field(fields, j, "tx_count_24h".spec_bytes(), value) ==> slice_view(r.tx_count_24h)
            == value.literal(),
        has_field(fields, j, "known_merchants".spec_bytes(), value) && value is Ids ==> {
            let items = value->Ids_0;
            &&& r.known_merchants@.len() == if items.len() < 64 {
                items.len()
            } else {
                64
            }
            &&& forall|k: int|
                0 <= k < r.known_merchants@.len() ==> (#[trigger] r.known_merchants@[k])@
                    == first_bytes(items[k].id, 32)
        },
        has_field(fields, j, "known_merchants".spec_bytes(), value) && !(value is Ids)
            ==> r.known_merchants@.len() == 0,
{
    lemma_keys();
    if 0 <= j < fields.len() && has_field(fields, j, fields[j].key, value) {
        lemma_landed(doc, body, r, i, Section::Customer, fields, j);
        let got = only(Section::Customer, fields[j].key, r@);
        assert(fields[j].key == "avg_amount".spec_bytes() ==> got.customer_avg_amount
            == slice_view(r.customer_avg_amount));
        assert(fields[j].key == "tx_count_24h".spec_bytes() ==> got.tx_count_24h == slice_view(
            r.tx_count_24h,
        ));
        if fields[j].key == "known_merchants".spec_bytes() {
            let known = contents(r.known_merchants@);
            assert(got.known_merchants == known);
            assert(known.len() == r.known_merchants@.len());
            if value is Ids {
                let items = value->Ids_0;
                lemma_kept(items, 0, Seq::empty());
                assert forall|k: int| 0 <= k < r.known_merchants@.len() implies (
                #[trigger] r.known_merchants@[k])@ == first_bytes(items[k].id, 32) by {
                    assert(known[k] == r.known_merchants@[k]@);
                }
            }
        }
    }
}

/// Each field that is written in the merchant section is read as it is written: an id by its first
/// 32 bytes, a category code as the text or the literal that it is, and an average as its literal.
pub proof fn law_merchant_read(
    doc: Document,
    body: &[u8],
    r: ScannedTx<'_>,
    i: int,
    fields: Seq<Field>,
    j: int,
    value: Value,
)
    requires
        doc.wf(),
        body@ == doc.text(),
        call_ensures(parse_transaction, (body,), r),
        doc.has_section(i, Section::Merchant, fields),
    ensures
        has_field(fields, j, "id".spec_bytes(), value) ==> r.merchant_id@ == (match value {
            Value::Text(id) => first_bytes(id, 32),
            _ => Seq::empty(),
        }),
        has_field(fields, j, "mcc".spec_bytes(), value) ==> match value {
            Value::Text(text) => r.mcc matches Mcc::Text(code) && code@ == text,
            Value::Number(l) => r.mcc matches Mcc::Number(code) && code@ == l.text(),
            _ => r.mcc matches Mcc::Text(code) && code@.len() == 0,
        },
        has_field(fields, j, "avg_amount".spec_bytes(), value) ==> slice_view(
            r.merchant_avg_amount,
        ) == value.literal(),
{
    lemma_keys();
    if 0 <= j < fields.len() && has_field(fields, j, fields[j].key, value) {
        lemma_landed(doc, body, r, i, Section::Merchant, fields, j);
        let got = only(Section::Merchant, fields[j].key, r@);
        assert(fields[j].key == "id".spec_bytes() ==> got.merchant_id == r.merchant_id@);
        assert(fields[j].key == "mcc".spec_bytes() ==> got.mcc == r.mcc@);
        assert(fields[j].key == "avg_amount".spec_bytes() ==> got.merchant_avg_amount
            == slice_view(r.merchant_avg_amount));
    }
}

/// Each field that is written in the section of the last transaction is read as it is written: a
/// timestamp as its seconds, where it is readable, and a distance as its literal.
pub proof fn law_last_transaction_read(
    doc: Document,
    body: &[u8],
    r: ScannedTx<'_>,
    i: int,
    fields: Seq<Field>,
    j: int,
    value: Value,
)
    requires
        doc.wf(),
        body@ == doc.text(),
        call_ensures(parse_transaction, (body,), r),
        doc.has_section(i, Section::LastTransaction, fields),
    ensures
        has_field(fields, j, "timestamp".spec_bytes(), value) && value is Text ==> match
            r.last_tx_seconds {
            Some(seconds) => unix_seconds(value->Text_0) == Some(seconds as int),
            None => unix_seconds(value->Text_0) is None,
        },
        has_field(fields, j, "timestamp".spec_bytes(), value) && !(value is Text)
            ==> r.last_tx_seconds is None,
        has_field(fields, j, "km_from_current".spec_bytes(), value) ==> slice_view(
            r.km_from_last_tx,
        ) == value.literal(),
{
    lemma_keys();
    if 0 <= j < fields.len() && has_field(fields, j, fields[j].key, value) {
        lemma_landed(doc, body, r, i, Section::LastTransaction, fields, j);
        let got = only(Section::LastTransaction, fields[j].key, r@);
        assert(fields[j].key == "timestamp".spec_bytes() ==> got.last_tx_seconds
            == r@.last_tx_seconds);
        assert(fields[j].key == "km_from_current".spec_bytes() ==> got.km_from_last_tx
            == slice_view(r.km_from_last_tx));
    }
}

/// A body that is empty, too long, or starts with anything but a brace is refused, and nothing is
/// read of it.
pub proof fn law_no_document(
    body: &[u8],
    r: ScannedTx<'_>,
    before: Seq<u8>,
    first: u8,
    behind: Seq<u8>,
)
    requires
        call_ensures(parse_transaction, (body,), r),
        body@.len() == 0 || body@.len() > 65_536 || (is_gap(before) && !is_gap_byte(first)
            && first != 0x7b && body@ == before + (seq![first] + behind)),
    ensures
        !r.parse_ok,
        !r.complete,
        r@ == (TxText { parse_ok: false, ..unread() }),
{
    if 0 < body@.len() <= 65_536 {
        let text = body@;
        assert(stands(text, 0, text));
        lemma_split(text, 0, before, seq![first] + behind);
        lemma_split(text, before.len() as int, seq![first], behind);
        assert(text[before.len() as int + 0] == seq![first][0]);
        lemma_gap(text, 0, before);
    }
}

/// A body whose first key has no colon behind it is refused.
pub proof fn law_no_colon(
    body: &[u8],
    r: ScannedTx<'_>,
    before: Seq<u8>,
    lead: Seq<u8>,
    key: Seq<u8>,
    gap: Seq<u8>,
    other: u8,
    behind: Seq<u8>,
)
    requires
        call_ensures(parse_transaction, (body,), r),
        is_gap(before),
        is_gap(lead),
        is_contents(key),
        is_gap(gap),
        !is_gap_byte(other),
        other != 0x3a,
        body@ == before + (seq![0x7bu8] + (lead + quoted(key) + (gap + (seq![other] + behind)))),
    ensures
        !r.parse_ok,
        !r.complete,
{
    let text = body@;
    let open = before.len() as int;
    let start = open + 1;
    let named = lead + quoted(key);
    let next = start + named.len();
    assert(stands(text, 0, text));
    lemma_split(text, 0, before, seq![0x7bu8] + (named + (gap + (seq![other] + behind))));
    lemma_split(text, open, seq![0x7bu8], named + (gap + (seq![other] + behind)));
    assert(text[open + 0] == seq![0x7bu8][0]);
    lemma_gap(text, 0, before);
    lemma_split(text, start, named, gap + (seq![other] + behind));
    lemma_split(text, next, gap, seq![other] + behind);
    lemma_split(text, next + gap.len(), seq![other], behind);
    assert(text[next + gap.len() + 0] == seq![other][0]);
    law_key_without_colon(Section::Transaction, text, start, lead, key, gap, unread());
}

/// A key without a colon behind it ends the reading, wherever it stands: in a section with what was
/// read so far, and in a body besides with its refusal.
pub proof fn law_key_without_colon(
    section: Section,
    text: Seq<u8>,
    start: int,
    lead: Seq<u8>,
    key: Seq<u8>,
    gap: Seq<u8>,
    tx: TxText,
)
    requires
        is_gap(lead),
        is_contents(key),
        is_gap(gap),
        stands(text, start, lead + quoted(key)),
        stands(text, start + (lead + quoted(key)).len(), gap),
        start + (lead + quoted(key)).len() + gap.len() < text.len(),
        !is_gap_byte(text[start + (lead + quoted(key)).len() + gap.len()]),
        text[start + (lead + quoted(key)).len() + gap.len()] != 0x3a,
    ensures
        sections(text, start, tx) == (TxText { parse_ok: false, ..tx }),
        members(section, text, start, tx).0 == tx,
{
    let quote = start + lead.len();
    let next = quote + key.len() + 2;
    assert((lead + quoted(key)).len() == lead.len() + key.len() + 2);
    lemma_string(text, start, lead, key);
    assert(after_space(text, quote) == quote);
    assert(string_at(text, quote) == string_at(text, start));
    assert(key_at(text, start) == (Some(key), next));
    lemma_gap(text, next, gap);
    assert(!colon_at(text, next).0);
}

/// Where no key stands, reading ends with what was read so far, whether a brace closes the object
/// or not; a body has then been read to its end.
pub proof fn law_no_key(section: Section, text: Seq<u8>, pos: int, gap: Seq<u8>, tx: TxText)
    requires
        is_gap(gap),
        stands(text, pos, gap),
        pos + gap.len() < text.len() ==> {
            let b = text[pos + gap.len()];
            !is_gap_byte(b) && b != 0x22 && b != 0x2c
        },
    ensures
        sections(text, pos, tx) == (TxText { complete: true, ..tx }),
        members(section, text, pos, tx).0 == tx,
{
    let at = pos + gap.len();
    assert(after_space(text, at) == at);
    lemma_gap_runs(text, pos, gap, at);
    assert(key_at(text, pos).0 is None);
}

/// A list of ids is read up to what is no string, and what was read before that is kept.
pub proof fn law_list_stops(text: Seq<u8>, pos: int, gap: Seq<u8>, known: Seq<Seq<u8>>)
    requires
        is_gap(gap),
        stands(text, pos, gap),
        pos + gap.len() < text.len() ==> {
            let b = text[pos + gap.len()];
            !is_gap_byte(b) && b != 0x22 && b != 0x2c && b != 0x5d
        },
    ensures
        known_items(text, pos, known) == (known, pos + gap.len()),
{
    let at = pos + gap.len();
    assert(after_space(text, at) == at);
    lemma_gap_runs(text, pos, gap, at);
}

/// The `j`-th field of the `i`-th part is the last of its section with its key.
pub open spec fn is_last(
    doc: Document,
    i: int,
    section: Section,
    fields: Seq<Field>,
    j: int,
) -> bool {
    &&& 0 <= i < doc.parts.len()
    &&& doc.parts[i].value == PartValue::Section(section, fields)
    &&& forall|k: int| i < k < doc.parts.len() ==> !is_section(#[trigger] doc.parts[k], section)
    &&& 0 <= j < fields.len()
    &&& forall|k: int| j < k < fields.len() ==> (#[trigger] fields[k]).key != fields[j].key
}

proof fn lemma_last_field(section: Section, fields: Seq<Field>, i: int, tx: TxText, j: int) -> (
    before: TxText)
    requires
        0 <= i <= j < fields.len(),
        forall|k: int| j < k < fields.len() ==> (#[trigger] fields[k]).key != fields[j].key,
    ensures
        only(section, fields[j].key, told_from(section, fields, i, tx)) == told(
            section,
            fields[j],
            before,
        ),
    decreases fields.len() - i,
{
    let key = fields[j].key;
    lemma_only(section, fields[i], tx, section, key);
    if i == j {
        lemma_only_fields(section, fields, i + 1, told(section, fields[i], tx), section, key);
        only(section, key, tx)
    } else {
        lemma_last_field(section, fields, i + 1, told(section, fields[i], tx), j)
    }
}

proof fn lemma_last_part(
    doc: Document,
    i: int,
    tx: TxText,
    at: int,
    section: Section,
    fields: Seq<Field>,
    j: int,
) -> (before: TxText)
    requires
        0 <= i <= at,
        is_last(doc, at, section, fields, j),
    ensures
        only(section, fields[j].key, told_parts(doc.parts, i, tx)) == told(
            section,
            fields[j],
            before,
        ),
    decreases at - i,
{
    let key = fields[j].key;
    let p = doc.parts[i];
    if i == at {
        let before = lemma_last_field(section, fields, 0, tx, j);
        assert forall|k: int| i + 1 <= k < doc.parts.len() implies !tells(
            #[trigger] doc.parts[k],
            section,
            key,
        ) by {
            assert(!is_section(doc.parts[k], section));
        }
        lemma_only_parts(doc.parts, i + 1, told_part(p, tx), section, key);
        before
    } else {
        lemma_last_part(doc, i + 1, told_part(p, tx), at, section, fields, j)
    }
}

/// Where a field is written more than once, the last one counts, whatever those before it say.
/// Known merchants are the exception ([`law_known_add_up`]).
pub proof fn law_last_counts(
    doc: Document,
    body: &[u8],
    r: ScannedTx<'_>,
    i: int,
    section: Section,
    fields: Seq<Field>,
    j: int,
    key: Seq<u8>,
    value: Value,
)
    requires
        doc.wf(),
        body@ == doc.text(),
        call_ensures(parse_transaction, (body,), r),
        is_last(doc, i, section, fields, j),
        fields[j].key == key,
        fields[j].value == value,
    ensures
        section == Section::Transaction && key == "amount".spec_bytes() && value.is_number()
            ==> slice_view(r.amount) == value.literal(),
        section == Section::Transaction && key == "installments".spec_bytes() && value.is_number()
            ==> slice_view(r.installments) == value.literal(),
        section == Section::Customer && key == "avg_amount".spec_bytes() && value.is_number()
            ==> slice_view(r.customer_avg_amount) == value.literal(),
        section == Section::Customer && key == "tx_count_24h".spec_bytes() && value.is_number()
            ==> slice_view(r.tx_count_24h) == value.literal(),
        section == Section::Merchant && key == "avg_amount".spec_bytes() && value.is_number()
            ==> slice_view(r.merchant_avg_amount) == value.literal(),
        section == Section::Terminal && key == "km_from_home".spec_bytes() && value.is_number()
            ==> slice_view(r.km_from_home) == value.literal(),
        section == Section::LastTransaction && key == "km_from_current".spec_bytes()
            && value.is_number() ==> slice_view(r.km_from_last_tx) == value.literal(),
        section == Section::Terminal && key == "is_online".spec_bytes() && value is Truth
            ==> r.is_online == value->Truth_value,
        section == Section::Terminal && key == "card_present".spec_bytes() && value is Truth
            ==> r.card_present == value->Truth_value,
        section == Section::Merchant && key == "id".spec_bytes() && value is Text
            ==> r.merchant_id@ == first_bytes(value->Text_0, 32),
        section == Section::Merchant && key == "mcc".spec_bytes() && value is Text
            ==> (r.mcc matches Mcc::Text(code) && code@ == value->Text_0),
        section == Section::Merchant && key == "mcc".spec_bytes() && value is Number
            ==> (r.mcc matches Mcc::Number(code) && code@ == value.number()),
        section == Section::LastTransaction && key == "timestamp".spec_bytes() && value is Text
            ==> (unix_seconds(value->Text_0) matches Some(seconds) ==> r@.last_tx_seconds == Some(
            seconds,
        )),
        section == Section::Transaction && key == "requested_at".spec_bytes() && value is Text
            ==> {
            &&& hour_and_weekday(value->Text_0) matches Some((hour, day)) ==> r.hour_of_day == hour
                && r.day_of_week == day
            &&& unix_seconds(value->Text_0) matches Some(seconds) ==> r.requested_at_seconds
                == seconds
        },
{
    lemma_keys();
    lemma_document_told(doc);
    let before = lemma_last_part(doc, 0, unread(), i, section, fields, j);
    let got = only(section, key, r@);
    assert(got == told(section, fields[j], before));
    assert(r@.merchant_id == r.merchant_id@ && r@.mcc == r.mcc@);
    if section == Section::Transaction && key == "requested_at".spec_bytes() {
        assert(got.hour_of_day == r.hour_of_day && got.day_of_week == r.day_of_week
            && got.requested_at_seconds == r.requested_at_seconds);
    }
}

/// The strings of a list.
pub open spec fn ids_of(items: Seq<Item>) -> Seq<Seq<u8>> {
    items.map_values(|item: Item| item.id)
}

/// The ids that the fields of a customer list as known, from the `i`-th field on.
pub open spec fn ids_in_fields(fields: Seq<Field>, i: int) -> Seq<Seq<u8>>
    decreases fields.len() - i,
{
    if 0 <= i < fields.len() {
        (if fields[i].key == "known_merchants".spec_bytes() && fields[i].value is Ids {
            ids_of(fields[i].value->Ids_0)
        } else {
            Seq::empty()
        }) + ids_in_fields(fields, i + 1)
    } else {
        Seq::empty()
    }
}

/// The ids that a document lists as known, from the `i`-th part on.
pub open spec fn ids_in_parts(parts: Seq<Part>, i: int) -> Seq<Seq<u8>>
    decreases parts.len() - i,
{
    if 0 <= i < parts.len() {
        (match parts[i].value {
            PartValue::Section(Section::Customer, fields) => ids_in_fields(fields, 0),
            _ => Seq::empty(),
        }) + ids_in_parts(parts, i + 1)
    } else {
        Seq::empty()
    }
}

/// `known` is `before` with the ids behind it, 64 in all at most, each by its first 32 bytes.
spec fn is_kept(known: Seq<Seq<u8>>, before: Seq<Seq<u8>>, ids: Seq<Seq<u8>>) -> bool {
    &&& known.len() == if before.len() + ids.len() < 64 {
        before.len() + ids.len()
    } else {
        64
    }
    &&& forall|k: int| 0 <= k < before.len() ==> #[trigger] known[k] == before[k]
    &&& forall|k: int|
        before.len() <= k < known.len() ==> #[trigger] known[k] == first_bytes(
            ids[k - before.len()],
            32,
        )
}

proof fn lemma_kept_further(
    a: Seq<Seq<u8>>,
    x: Seq<Seq<u8>>,
    b: Seq<Seq<u8>>,
    y: Seq<Seq<u8>>,
    c: Seq<Seq<u8>>,
)
    requires
        a.len() <= 64,
        is_kept(b, a, x),
        is_kept(c, b, y),
    ensures
        is_kept(c, a, x + y),
{
    let ids = x + y;
    assert forall|k: int| 0 <= k < a.len() implies #[trigger] c[k] == a[k] by {
        assert(c[k] == b[k]);
    }
    assert forall|k: int| a.len() <= k < c.len() implies #[trigger] c[k] == first_bytes(
        ids[k - a.len()],
        32,
    ) by {
        if k < b.len() {
            assert(c[k] == b[k]);
            assert(ids[k - a.len()] == x[k - a.len()]);
        } else {
            assert(ids[k - a.len()] == y[k - b.len()]);
        }
    }
}

proof fn lemma_known_told(section: Section, f: Field, tx: TxText)
    requires
        tx.known_merchants.len() <= 64,
        suits(section, f.key, f.value),
    ensures
        is_kept(
            told(section, f, tx).known_merchants,
            tx.known_merchants,
            if section == Section::Customer && f.key == "known_merchants".spec_bytes() && f.value
                is Ids {
                ids_of(f.value->Ids_0)
            } else {
                Seq::empty()
            },
        ),
{
    lemma_keys();
    if section == Section::Customer && f.key == "known_merchants".spec_bytes() && f.value is Ids {
        let items = f.value->Ids_0;
        lemma_kept(items, 0, tx.known_merchants);
        assert forall|k: int| 0 <= k < items.len() implies ids_of(items)[k]
            == #[trigger] items[k].id by {}
    }
}

proof fn lemma_known_fields(section: Section, fields: Seq<Field>, i: int, tx: TxText)
    requires
        0 <= i <= fields.len(),
        tx.known_merchants.len() <= 64,
        are_fields(section, fields),
    ensures
        is_kept(
            told_from(section, fields, i, tx).known_merchants,
            tx.known_merchants,
            if section == Section::Customer {
                ids_in_fields(fields, i)
            } else {
                Seq::empty()
            },
        ),
    decreases fields.len() - i,
{
    if i < fields.len() {
        let f = fields[i];
        let next = told(section, f, tx);
        assert(suits(section, f.key, f.value));
        lemma_known_told(section, f, tx);
        lemma_known_fields(section, fields, i + 1, next);
        let own = if section == Section::Customer && f.key == "known_merchants".spec_bytes()
            && f.value is Ids {
            ids_of(f.value->Ids_0)
        } else {
            Seq::empty()
        };
        let rest = if section == Section::Customer {
            ids_in_fields(fields, i + 1)
        } else {
            Seq::empty()
        };
        lemma_kept_further(
            tx.known_merchants,
            own,
            next.known_merchants,
            rest,
            told_from(section, fields, i, tx).known_merchants,
        );
        assert(Seq::<Seq<u8>>::empty() + Seq::<Seq<u8>>::empty() =~= Seq::<Seq<u8>>::empty());
    }
}

proof fn lemma_known_parts(parts: Seq<Part>, i: int, tx: TxText)
    requires
        0 <= i <= parts.len(),
        tx.known_merchants.len() <= 64,
        are_parts(parts),
    ensures
        is_kept(
            told_parts(parts, i, tx).known_merchants,
            tx.known_merchants,
            ids_in_parts(parts, i),
        ),
    decreases parts.len() - i,
{
    if i < parts.len() {
        let p = parts[i];
        let next = told_part(p, tx);
        assert(p.wf());
        let own = match p.value {
            PartValue::Section(Section::Customer, fields) => ids_in_fields(fields, 0),
            _ => Seq::empty(),
        };
        if let PartValue::Section(section, fields) = p.value {
            lemma_known_fields(section, fields, 0, tx);
        }
        assert(is_kept(next.known_merchants, tx.known_merchants, own));
        lemma_known_parts(parts, i + 1, next);
        lemma_kept_further(
            tx.known_merchants,
            own,
            next.known_merchants,
            ids_in_parts(parts, i + 1),
            told_parts(parts, i, tx).known_merchants,
        );
    }
}

/// The known merchants of a document are all those that it lists, in their order, wherever they are
/// listed: the first 64, each by the first 32 bytes of its id.
pub proof fn law_known_add_up(doc: Document, body: &[u8], r: ScannedTx<'_>, k: int)
    requires
        doc.wf(),
        body@ == doc.text(),
        call_ensures(parse_transaction, (body,), r),
    ensures
        ({
            let ids = ids_in_parts(doc.parts, 0);
            &&& r.known_merchants@.len() == if ids.len() < 64 {
                ids.len()
            } else {
                64
            }
            &&& 0 <= k < r.known_merchants@.len() ==> r.known_merchants@[k]@ == first_bytes(
                ids[k],
                32,
            )
        }),
{
    lemma_document_told(doc);
    lemma_known_parts(doc.parts, 0, unread());
    let known = contents(r.known_merchants@);
    assert(r@.known_merchants == known && known.len() == r.known_merchants@.len());
    if 0 <= k < r.known_merchants@.len() {
        assert(known[k] == r.known_merchants@[k]@);
    }
}

/// What no part of a document says is left as it is by default: no number, offline, card present,
/// noon on a Thursday, no merchant and none known, and no last transaction.
pub proof fn law_silence(doc: Document, body: &[u8], r: ScannedTx<'_>)
    requires
        doc.wf(),
        body@ == doc.text(),
        call_ensures(parse_transaction, (body,), r),
    ensures
        r.complete,
        is_silent(doc, Section::Transaction, "amount".spec_bytes()) ==> r.amount is None,
        is_silent(doc, Section::Transaction, "installments".spec_bytes()) ==> r.installments
            is None,
        is_silent(doc, Section::Transaction, "requested_at".spec_bytes()) ==> r.parse_ok
            && r.requested_at_seconds == 0 && r.hour_of_day == 12 && r.day_of_week == 3,
        is_silent(doc, Section::Customer, "avg_amount".spec_bytes()) ==> r.customer_avg_amount
            is None,
        is_silent(doc, Section::Customer, "tx_count_24h".spec_bytes()) ==> r.tx_count_24h is None,
        is_silent(doc, Section::Customer, "known_merchants".spec_bytes())
            ==> r.known_merchants@.len() == 0,
        is_silent(doc, Section::Merchant, "id".spec_bytes()) ==> r.merchant_id@.len() == 0,
        is_silent(doc, Section::Merchant, "mcc".spec_bytes()) ==> (r.mcc matches Mcc::Text(code)
            && code@.len() == 0),
        is_silent(doc, Section::Merchant, "avg_amount".spec_bytes()) ==> r.merchant_avg_amount
            is None,
        is_silent(doc, Section::Terminal, "is_online".spec_bytes()) ==> !r.is_online,
        is_silent(doc, Section::Terminal, "card_present".spec_bytes()) ==> r.card_present,
        is_silent(doc, Section::Terminal, "km_from_home".spec_bytes()) ==> r.km_from_home is None,
        is_silent(doc, Section::LastTransaction, "timestamp".spec_bytes()) ==> r.last_tx_seconds
            is None,
        is_silent(doc, Section::LastTransaction, "km_from_current".spec_bytes())
            ==> r.km_from_last_tx is None,
{
    lemma_keys();
    lemma_document_told(doc);
    lemma_silent(doc, r@, Section::Transaction, "amount".spec_bytes());
    lemma_silent(doc, r@, Section::Transaction, "installments".spec_bytes());
    lemma_silent(doc, r@, Section::Transaction, "requested_at".spec_bytes());
    lemma_silent(doc, r@, Section::Customer, "avg_amount".spec_bytes());
    lemma_silent(doc, r@, Section::Customer, "tx_count_24h".spec_bytes());
    lemma_silent(doc, r@, Section::Customer, "known_merchants".spec_bytes());
    lemma_silent(doc, r@, Section::Merchant, "id".spec_bytes());
    lemma_silent(doc, r@, Section::Merchant, "mcc".spec_bytes());
    lemma_silent(doc, r@, Section::Merchant, "avg_amount".spec_bytes());
    lemma_silent(doc, r@, Section::Terminal, "is_online".spec_bytes());
    lemma_silent(doc, r@, Section::Terminal, "card_present".spec_bytes());
    lemma_silent(doc, r@, Section::Terminal, "km_from_home".spec_bytes());
    lemma_silent(doc, r@, Section::LastTransaction, "timestamp".spec_bytes());
    lemma_silent(doc, r@, Section::LastTransaction, "km_from_current".spec_bytes());
}

proof fn lemma_silent(doc: Document, tx: TxText, section: Section, key: Seq<u8>)
    requires
        tx == (TxText { complete: true, ..told_parts(doc.parts, 0, unread()) }),
    ensures
        is_silent(doc, section, key) ==> only(section, key, tx) == unread(),
{
    if is_silent(doc, section, key) {
        lemma_only_parts(doc.parts, 0, unread(), section, key);
    }
}

/// The text is a decimal literal, if there is one.
pub open spec fn is_written_number(v: Option<&[u8]>) -> bool {
    v matches Some(text) ==> exists|l: Literal| l.wf() && #[trigger] l.text() == text@
}

proof fn lemma_written_number(v: Option<&[u8]>)
    requires
        is_literal(slice_view(v)),
    ensures
        is_written_number(v),
{
    if let Some(text) = v {
        law_decimal_is_literal(text@);
    }
}

/// Whatever the body holds, what is taken for a number is a decimal literal, the hour is on the
/// clock and the day in the week, and no more is kept of ids than there is room for.
pub proof fn law_read_in_range(body: &[u8], r: ScannedTx<'_>)
    requires
        call_ensures(parse_transaction, (body,), r),
    ensures
        is_written_number(r.amount),
        is_written_number(r.installments),
        is_written_number(r.customer_avg_amount),
        is_written_number(r.merchant_avg_amount),
        is_written_number(r.tx_count_24h),
        is_written_number(r.km_from_home),
        is_written_number(r.km_from_last_tx),
        r.mcc matches Mcc::Number(text) ==> exists|l: Literal|
            l.wf() && #[trigger] l.text() == text@,
        r.hour_of_day <= 23,
        r.day_of_week <= 6,
        r.merchant_id@.len() <= 32,
        r.known_merchants@.len() <= 64,
        r.parse_ok ==> r.complete,
{
    lemma_written_number(r.amount);
    lemma_written_number(r.installments);
    lemma_written_number(r.customer_avg_amount);
    lemma_written_number(r.merchant_avg_amount);
    lemma_written_number(r.tx_count_24h);
    lemma_written_number(r.km_from_home);
    lemma_written_number(r.km_from_last_tx);
    if let Mcc::Number(text) = r.mcc {
        assert(r@.mcc == MccText::Number(text@));
        law_decimal_is_literal(text@);
    }
    assert(r@.known_merchants.len() == r.known_merchants@.len());
}

} // verus!
