//! Bodies as they are written.
//!
//! A document is a list of parts, and a part that is a section is a list of fields; the space
//! between them is part of how they are written. Under a key of which nothing is expected any value
//! can stand.
use vstd::prelude::*;
use vstd::string::StringSliceAdditionalSpecFns;

use crate::bytes::occurs_at;
use crate::grammar::json_end;
use crate::iso::unix_seconds;
use crate::json::{
    after_digits, after_number, after_sign, after_space, after_value, colon_at, key_at, number_at,
};
use crate::parser::{
    bool_field, known_at, mcc_field, member, members, number_field, scanned, section_at,
    section_named, sections, string_field, unread, with_request_time, MccText, Section, TxText,
};
use crate::written::{
    false_word, first_bytes, is_contents, is_gap, is_gap_byte, is_stop, items_from, kept_from,
    lemma_gap, lemma_gap_runs, lemma_items, lemma_no_word, lemma_number, lemma_other, lemma_split,
    lemma_string, lemma_truth, lemma_word, lemma_words, null_word, quoted, spells, stands, true_word, Item,
    Literal,
};

verus! {

/// A value as it is written.
pub enum Value {
    Number(Literal),
    QuotedNumber(Literal),
    Text(Seq<u8>),
    Truth { spelling: Seq<u8>, value: bool },
    Ids(Seq<Item>),
    /// Any JSON value.
    Other(Seq<u8>),
}

impl Value {
    pub open spec fn wf(self) -> bool {
        match self {
            Value::Number(l) => l.wf(),
            Value::QuotedNumber(l) => l.wf(),
            Value::Text(s) => is_contents(s),
            Value::Truth { spelling, value } => spells(spelling, value),
            Value::Ids(items) => forall|k: int| 0 <= k < items.len() ==> (#[trigger] items[k]).wf(),
            Value::Other(text) => text.len() > 0 && !is_gap_byte(text[0]) && json_end(
                text.push(0x7d),
                0,
            ) == Some(text.len() as int),
        }
    }

    pub open spec fn text(self) -> Seq<u8> {
        match self {
            Value::Number(l) => l.text(),
            Value::QuotedNumber(l) => quoted(l.text()),
            Value::Text(s) => quoted(s),
            Value::Truth { spelling, .. } => spelling,
            Value::Ids(items) => seq![0x5bu8] + items_from(items, 0),
            Value::Other(text) => text,
        }
    }

    /// A truth value, `null`, an object or an array.
    pub open spec fn is_no_number(self) -> bool {
        self matches Value::Other(text) && (text[0] == 0x74 || text[0] == 0x66 || text[0] == 0x6e
            || text[0] == 0x7b || text[0] == 0x5b)
    }

    /// Anything but a string.
    pub open spec fn is_no_text(self) -> bool {
        self matches Value::Other(text) && text[0] != 0x22
    }

    /// Anything but a truth value or a string.
    pub open spec fn is_no_truth(self) -> bool {
        self matches Value::Other(text) && text[0] != 0x22 && text[0] != 0x74 && text[0] != 0x66
    }

    /// Anything but an array.
    pub open spec fn is_no_list(self) -> bool {
        self matches Value::Other(text) && text[0] != 0x5b
    }

    pub open spec fn is_number(self) -> bool {
        self is Number || self is QuotedNumber
    }

    /// The text of the number, if it is one.
    pub open spec fn literal(self) -> Option<Seq<u8>> {
        match self {
            Value::Number(l) => Some(l.text()),
            Value::QuotedNumber(l) => Some(l.text()),
            _ => None,
        }
    }

    /// The text of the number, without the quotes.
    pub open spec fn number(self) -> Seq<u8> {
        match self {
            Value::Number(l) => l.text(),
            Value::QuotedNumber(l) => l.text(),
            _ => Seq::empty(),
        }
    }
}

/// A key, its value, and the space around them.
pub struct Field {
    /// Whether a comma stands before it.
    pub comma: bool,
    pub lead: Seq<u8>,
    pub key: Seq<u8>,
    pub gap: Seq<u8>,
    pub pad: Seq<u8>,
    pub value: Value,
    pub tail: Seq<u8>,
}

impl Field {
    pub open spec fn wf(self) -> bool {
        &&& is_gap(self.lead)
        &&& is_contents(self.key)
        &&& is_gap(self.gap)
        &&& is_gap(self.pad)
        &&& self.value.wf()
        &&& is_gap(self.tail)
    }
}

/// The value is of the kind that a section expects under the key, or of another kind altogether.
/// Under a key of which it expects nothing, any value will do.
pub open spec fn suits(section: Section, key: Seq<u8>, value: Value) -> bool {
    match section {
        Section::Transaction => if key == "amount".spec_bytes() || key
            == "installments".spec_bytes() {
            value.is_number() || value.is_no_number()
        } else if key == "requested_at".spec_bytes() {
            value is Text || value.is_no_text()
        } else {
            value is Other
        },
        Section::Customer => if key == "avg_amount".spec_bytes() || key
            == "tx_count_24h".spec_bytes() {
            value.is_number() || value.is_no_number()
        } else if key == "known_merchants".spec_bytes() {
            value is Ids || value.is_no_list()
        } else {
            value is Other
        },
        Section::Merchant => if key == "id".spec_bytes() {
            value is Text || value.is_no_text()
        } else if key == "mcc".spec_bytes() {
            value is Text || value is Number || value.is_no_number()
        } else if key == "avg_amount".spec_bytes() {
            value.is_number() || value.is_no_number()
        } else {
            value is Other
        },
        Section::Terminal => if key == "is_online".spec_bytes() || key
            == "card_present".spec_bytes() {
            value is Truth || value.is_no_truth()
        } else if key == "km_from_home".spec_bytes() {
            value.is_number() || value.is_no_number()
        } else {
            value is Other
        },
        Section::LastTransaction => if key == "timestamp".spec_bytes() {
            value is Text || value.is_no_text()
        } else if key == "km_from_current".spec_bytes() {
            value.is_number() || value.is_no_number()
        } else {
            value is Other
        },
    }
}

/// The transaction after a field of a section was told.
pub open spec fn told(section: Section, f: Field, tx: TxText) -> TxText {
    if f.value is Other {
        tx
    } else {
        told_value(section, f, tx)
    }
}

/// The same, for a value that is expected.
pub open spec fn told_value(section: Section, f: Field, tx: TxText) -> TxText {
    match section {
        Section::Transaction => if f.key == "amount".spec_bytes() {
            TxText { amount: Some(f.value.number()), ..tx }
        } else if f.key == "installments".spec_bytes() {
            TxText { installments: Some(f.value.number()), ..tx }
        } else if f.key == "requested_at".spec_bytes() {
            with_request_time(tx, f.value->Text_0)
        } else {
            tx
        },
        Section::Customer => if f.key == "avg_amount".spec_bytes() {
            TxText { customer_avg_amount: Some(f.value.number()), ..tx }
        } else if f.key == "tx_count_24h".spec_bytes() {
            TxText { tx_count_24h: Some(f.value.number()), ..tx }
        } else if f.key == "known_merchants".spec_bytes() {
            TxText { known_merchants: kept_from(f.value->Ids_0, 0, tx.known_merchants), ..tx }
        } else {
            tx
        },
        Section::Merchant => if f.key == "id".spec_bytes() {
            TxText { merchant_id: first_bytes(f.value->Text_0, 32), ..tx }
        } else if f.key == "mcc".spec_bytes() {
            TxText {
                mcc: match f.value {
                    Value::Text(s) => MccText::Text(s),
                    _ => MccText::Number(f.value.number()),
                },
                ..tx
            }
        } else if f.key == "avg_amount".spec_bytes() {
            TxText { merchant_avg_amount: Some(f.value.number()), ..tx }
        } else {
            tx
        },
        Section::Terminal => if f.key == "is_online".spec_bytes() {
            TxText { is_online: f.value->Truth_value, ..tx }
        } else if f.key == "card_present".spec_bytes() {
            TxText { card_present: f.value->Truth_value, ..tx }
        } else if f.key == "km_from_home".spec_bytes() {
            TxText { km_from_home: Some(f.value.number()), ..tx }
        } else {
            tx
        },
        Section::LastTransaction => if f.key == "timestamp".spec_bytes() {
            TxText {
                last_tx_seconds: match unix_seconds(f.value->Text_0) {
                    Some(seconds) => Some(seconds),
                    None => tx.last_tx_seconds,
                },
                ..tx
            }
        } else if f.key == "km_from_current".spec_bytes() {
            TxText { km_from_last_tx: Some(f.value.number()), ..tx }
        } else {
            tx
        },
    }
}

/// A number field is read as its number.
proof fn lemma_number_value(text: Seq<u8>, pos: int, pad: Seq<u8>, value: Value)
    requires
        value.wf(),
        value.is_number(),
        is_gap(pad),
        stands(text, pos, pad + value.text()),
        pos + pad.len() + value.text().len() < text.len(),
        is_stop(text[pos + pad.len() + value.text().len()]),
    ensures
        number_field(text, pos) == (
            Some(value.number()),
            pos + pad.len() + value.text().len(),
        ),
{
    match value {
        Value::Number(l) => lemma_number(text, pos, pad, l, false),
        Value::QuotedNumber(l) => lemma_number(text, pos, pad, l, true),
        _ => {},
    }
}

proof fn lemma_ids_value(
    text: Seq<u8>,
    pos: int,
    pad: Seq<u8>,
    items: Seq<Item>,
    known: Seq<Seq<u8>>,
)
    requires
        Value::Ids(items).wf(),
        is_gap(pad),
        stands(text, pos, pad + Value::Ids(items).text()),
    ensures
        known_at(text, pos, known) == (
            kept_from(items, 0, known),
            pos + pad.len() + Value::Ids(items).text().len(),
        ),
{
    let start = pos + pad.len();
    let rest = items_from(items, 0);
    lemma_split(text, pos, pad, seq![0x5bu8] + rest);
    lemma_split(text, start, seq![0x5bu8], rest);
    assert(text[start + 0] == seq![0x5bu8][0]);
    lemma_gap(text, pos, pad);
    assert(Seq::<u8>::empty() + rest =~= rest);
    lemma_items(text, start + 1, Seq::empty(), items, 0, known);
}

proof fn lemma_code_value(text: Seq<u8>, pos: int, pad: Seq<u8>, value: Value)
    requires
        value.wf(),
        value is Text || value is Number,
        is_gap(pad),
        stands(text, pos, pad + value.text()),
        pos + pad.len() + value.text().len() < text.len(),
        is_stop(text[pos + pad.len() + value.text().len()]),
    ensures
        mcc_field(text, pos) == (
            Some(
                match value {
                    Value::Text(s) => MccText::Text(s),
                    _ => MccText::Number(value.number()),
                },
            ),
            pos + pad.len() + value.text().len(),
        ),
{
    match value {
        Value::Text(s) => lemma_string(text, pos, pad, s),
        Value::Number(l) => {
            lemma_number(text, pos, pad, l, false);
            let open = pos + pad.len();
            lemma_split(text, pos, pad, l.text());
            assert(Seq::<u8>::empty() + l.text() =~= l.text());
            lemma_number(text, open, Seq::empty(), l, false);
        },
        _ => {},
    }
}

/// A field is read as what it tells.
proof fn lemma_told(section: Section, text: Seq<u8>, pos: int, f: Field, tx: TxText)
    requires
        f.wf(),
        suits(section, f.key, f.value),
        stands(text, pos, f.pad + f.value.text()),
        pos + f.pad.len() + f.value.text().len() < text.len(),
        is_stop(text[pos + f.pad.len() + f.value.text().len()]),
    ensures
        member(section, text, pos, f.key, tx) == (
            told(section, f, tx),
            pos + f.pad.len() + f.value.text().len(),
        ),
{
    match f.value {
        Value::Number(_) => {
            lemma_number_value(text, pos, f.pad, f.value);
            lemma_code_value(text, pos, f.pad, f.value);
        },
        Value::QuotedNumber(_) => lemma_number_value(text, pos, f.pad, f.value),
        Value::Text(s) => {
            lemma_string(text, pos, f.pad, s);
            lemma_code_value(text, pos, f.pad, f.value);
        },
        Value::Truth { spelling, value } => lemma_truth(text, pos, f.pad, spelling, value),
        Value::Ids(items) => lemma_ids_value(text, pos, f.pad, items, tx.known_merchants),
        Value::Other(other) => {
            lemma_other(text, pos, f.pad, other);
            lemma_misfit(text, pos, f.pad, other, tx.known_merchants);
        },
    }
}

/// A value of another kind than is expected is passed.
proof fn lemma_misfit(text: Seq<u8>, pos: int, pad: Seq<u8>, value: Seq<u8>, known: Seq<Seq<u8>>)
    requires
        is_gap(pad),
        Value::Other(value).wf(),
        stands(text, pos, pad + value),
        pos + pad.len() + value.len() < text.len(),
        is_stop(text[pos + pad.len() + value.len()]),
    ensures
        ({
            let end = pos + pad.len() + value.len();
            let other = Value::Other(value);
            &&& other.is_no_number() ==> number_field(text, pos) == (None::<Seq<u8>>, end)
            &&& other.is_no_number() ==> mcc_field(text, pos) == (None::<MccText>, end)
            &&& other.is_no_text() ==> string_field(text, pos) == (None::<Seq<u8>>, end)
            &&& other.is_no_truth() ==> bool_field(text, pos) == (None::<bool>, end)
            &&& other.is_no_list() ==> known_at(text, pos, known) == (known, end)
        }),
{
    let first = pos + pad.len();
    let other = Value::Other(value);
    lemma_split(text, pos, pad, value);
    assert(text[first + 0] == value[0]);
    lemma_gap(text, pos, pad);
    assert(Seq::<u8>::empty() + value =~= value);
    lemma_other(text, first, Seq::empty(), value);
    assert(after_space(text, first) == first);
    if other.is_no_number() {
        assert(after_sign(text, first) == first);
        assert(after_digits(text, first) == first);
        assert(after_number(text, first) == first);
        assert(number_at(text, pos) == (None::<Seq<u8>>, first));
        assert(number_at(text, first) == (None::<Seq<u8>>, first));
    }
    if other.is_no_truth() {
        lemma_words();
        lemma_no_word(text, first, true_word());
        lemma_no_word(text, first, false_word());
    }
}

/// What stands before a value: a comma or none, the key, and a colon.
pub open spec fn header(comma: bool, lead: Seq<u8>, key: Seq<u8>, gap: Seq<u8>) -> Seq<u8> {
    (if comma {
        seq![0x2cu8]
    } else {
        Seq::empty()
    }) + lead + quoted(key) + gap + seq![0x3au8]
}

/// The fields from the `i`-th on and the end of their section.
pub open spec fn fields_from(fields: Seq<Field>, i: int) -> Seq<u8>
    decreases fields.len() - i,
{
    if 0 <= i < fields.len() {
        let f = fields[i];
        header(f.comma, f.lead, f.key, f.gap) + (f.pad + f.value.text() + (f.tail + fields_from(
            fields,
            i + 1,
        )))
    } else {
        seq![0x7du8]
    }
}

/// The key and the colon of a header are read, and reading goes on behind them.
proof fn lemma_header(
    text: Seq<u8>,
    pos: int,
    blank: Seq<u8>,
    comma: bool,
    lead: Seq<u8>,
    key: Seq<u8>,
    gap: Seq<u8>,
)
    requires
        is_gap(blank),
        is_gap(lead),
        is_contents(key),
        is_gap(gap),
        stands(text, pos, blank + header(comma, lead, key, gap)),
    ensures
        key_at(text, pos).0 == Some(key),
        colon_at(text, key_at(text, pos).1) == (
            true,
            pos + blank.len() + header(comma, lead, key, gap).len(),
        ),
{
    let mark = if comma {
        seq![0x2cu8]
    } else {
        Seq::<u8>::empty()
    };
    let colon = seq![0x3au8];
    let first = pos + blank.len();
    let head = header(comma, lead, key, gap);
    lemma_split(text, pos, blank, head);
    lemma_split(text, first, mark + lead + quoted(key) + gap, colon);
    lemma_split(text, first, mark + lead + quoted(key), gap);
    lemma_split(text, first, mark + lead, quoted(key));
    lemma_split(text, first, mark, lead);
    let start = first + mark.len();
    let open = start + lead.len();
    let next = open + key.len() + 2;
    assert(quoted(key).len() == key.len() + 2);
    assert(Seq::<u8>::empty() + quoted(key) =~= quoted(key));
    lemma_string(text, open, Seq::empty(), key);
    assert(text[next + gap.len() + 0] == colon[0]);
    lemma_gap(text, next, gap);
    lemma_gap(text, start, lead);
    if comma {
        assert(text[first + 0] == mark[0]);
        lemma_gap(text, pos, blank);
    } else {
        lemma_gap_runs(text, pos, blank, open);
    }
    assert(key_at(text, pos) == (Some(key), next));
}

/// The byte behind a gap that a list goes on or ends behind.
proof fn lemma_stop(text: Seq<u8>, pos: int, tail: Seq<u8>, rest: Seq<u8>)
    requires
        stands(text, pos, tail + rest),
        is_gap(tail),
        rest.len() > 0,
        rest[0] == 0x2c || rest[0] == 0x7d || tail.len() > 0,
    ensures
        pos < text.len(),
        is_stop(text[pos]),
{
    let all = tail + rest;
    assert(text[pos + 0] == all[0]);
    if tail.len() > 0 {
        assert(all[0] == tail[0]);
    }
}

/// The transaction after the fields from the `i`-th on were told.
pub open spec fn told_from(section: Section, fields: Seq<Field>, i: int, tx: TxText) -> TxText
    decreases fields.len() - i,
{
    if 0 <= i < fields.len() {
        told_from(section, fields, i + 1, told(section, fields[i], tx))
    } else {
        tx
    }
}

/// The fields are well written and suit their section. Commas between them may be missing where
/// there is a gap.
pub open spec fn are_fields(section: Section, fields: Seq<Field>) -> bool {
    &&& forall|k: int|
        0 <= k < fields.len() - 1 ==> (#[trigger] fields[k]).tail.len() > 0 || fields[k + 1].comma
    &&& forall|k: int|
        0 <= k < fields.len() ==> (#[trigger] fields[k]).wf() && suits(
            section,
            fields[k].key,
            fields[k].value,
        )
}

proof fn lemma_fields_from(fields: Seq<Field>, i: int)
    ensures
        fields_from(fields, i).len() > 0,
        0 <= i < fields.len() && fields[i].comma ==> fields_from(fields, i)[0] == 0x2c,
        i >= fields.len() ==> fields_from(fields, i)[0] == 0x7d,
{
    if 0 <= i < fields.len() {
        let f = fields[i];
        let head = header(f.comma, f.lead, f.key, f.gap);
        assert(head.len() > 0);
        assert(fields_from(fields, i)[0] == head[0]);
        if f.comma {
            assert(head[0] == 0x2c);
        }
    }
}

/// The fields of a section are read as what they tell.
proof fn lemma_fields_told(
    section: Section,
    text: Seq<u8>,
    pos: int,
    blank: Seq<u8>,
    fields: Seq<Field>,
    i: int,
    tx: TxText,
)
    requires
        0 <= i <= fields.len(),
        are_fields(section, fields),
        is_gap(blank),
        stands(text, pos, blank + fields_from(fields, i)),
    ensures
        members(section, text, pos, tx) == (
            told_from(section, fields, i, tx),
            pos + blank.len() + fields_from(fields, i).len(),
        ),
    decreases fields.len() - i,
{
    let rest = fields_from(fields, i);
    lemma_fields_from(fields, i);
    if i < fields.len() {
        let f = fields[i];
        let more = f.tail + fields_from(fields, i + 1);
        assert(f.wf() && suits(section, f.key, f.value));
        lemma_fields_from(fields, i + 1);
        lemma_field_told(section, text, pos, blank, f, fields_from(fields, i + 1), tx);
        let end = pos + blank.len() + header(f.comma, f.lead, f.key, f.gap).len() + f.pad.len()
            + f.value.text().len();
        lemma_fields_told(section, text, end, f.tail, fields, i + 1, told(section, f, tx));
    } else {
        lemma_split(text, pos, blank, rest);
        assert(text[pos + blank.len() + 0] == rest[0]);
        lemma_gap(text, pos, blank);
    }
}

/// The first of some fields is read as what it tells, and reading goes on behind its value.
proof fn lemma_field_told(
    section: Section,
    text: Seq<u8>,
    pos: int,
    blank: Seq<u8>,
    f: Field,
    rest: Seq<u8>,
    tx: TxText,
)
    requires
        f.wf(),
        suits(section, f.key, f.value),
        is_gap(blank),
        rest.len() > 0,
        rest[0] == 0x2c || rest[0] == 0x7d || f.tail.len() > 0,
        stands(
            text,
            pos,
            blank + (header(f.comma, f.lead, f.key, f.gap) + (f.pad + f.value.text() + (f.tail
                + rest))),
        ),
    ensures
        ({
            let end = pos + blank.len() + header(f.comma, f.lead, f.key, f.gap).len() + f.pad.len()
                + f.value.text().len();
            &&& members(section, text, pos, tx) == members(
                section,
                text,
                end,
                told(section, f, tx),
            )
            &&& stands(text, end, f.tail + rest)
        }),
{
    let head = header(f.comma, f.lead, f.key, f.gap);
    let value = f.pad + f.value.text();
    let more = f.tail + rest;
    let start = pos + blank.len() + head.len();
    let end = start + value.len();
    assert(blank + (head + (value + more)) =~= (blank + head) + (value + more));
    lemma_split(text, pos, blank + head, value + more);
    lemma_split(text, start, value, more);
    lemma_header(text, pos, blank, f.comma, f.lead, f.key, f.gap);
    lemma_stop(text, end, f.tail, rest);
    lemma_told(section, text, start, f, tx);
}

/// The key of a section.
pub open spec fn section_key(section: Section) -> Seq<u8> {
    match section {
        Section::Transaction => "transaction".spec_bytes(),
        Section::Customer => "customer".spec_bytes(),
        Section::Merchant => "merchant".spec_bytes(),
        Section::Terminal => "terminal".spec_bytes(),
        Section::LastTransaction => "last_transaction".spec_bytes(),
    }
}

proof fn lemma_section_keys()
    ensures
        forall|section: Section| section_named(#[trigger] section_key(section)) == Some(section),
        forall|key: Seq<u8>| #[trigger] is_free(key) ==> section_named(key) is None,
{
    assert forall|key: Seq<u8>| #[trigger] is_free(key) implies section_named(key) is None by {
        assert(key != section_key(Section::Transaction));
        assert(key != section_key(Section::Customer));
        assert(key != section_key(Section::Merchant));
        assert(key != section_key(Section::Terminal));
        assert(key != section_key(Section::LastTransaction));
    }
    reveal_strlit("transaction");
    reveal_strlit("customer");
    reveal_strlit("merchant");
    reveal_strlit("terminal");
    reveal_strlit("last_transaction");
    assert("transaction".is_ascii());
    assert("customer".is_ascii());
    assert("merchant".is_ascii());
    assert("terminal".is_ascii());
    assert("last_transaction".is_ascii());
    assert("transaction".spec_bytes().len() == 11);
    assert("customer".spec_bytes().len() == 8 && "customer".spec_bytes()[0] == 0x63);
    assert("merchant".spec_bytes().len() == 8 && "merchant".spec_bytes()[0] == 0x6d);
    assert("terminal".spec_bytes().len() == 8 && "terminal".spec_bytes()[0] == 0x74);
    assert("last_transaction".spec_bytes().len() == 16);
}

/// The key is that of no section.
pub open spec fn is_free(key: Seq<u8>) -> bool {
    forall|section: Section| key != #[trigger] section_key(section)
}

/// The value of a part of a document: a section, or any JSON value.
pub enum PartValue {
    Section(Section, Seq<Field>),
    Other(Seq<u8>),
}

/// A part of a document, and the space around it.
pub struct Part {
    /// Whether a comma stands before it.
    pub comma: bool,
    pub lead: Seq<u8>,
    pub key: Seq<u8>,
    pub gap: Seq<u8>,
    pub pad: Seq<u8>,
    pub value: PartValue,
    pub tail: Seq<u8>,
}

impl Part {
    /// A section stands under its key; an object under another key, and any other value anywhere.
    pub open spec fn wf(self) -> bool {
        &&& is_gap(self.lead)
        &&& is_contents(self.key)
        &&& is_gap(self.gap)
        &&& is_gap(self.pad)
        &&& is_gap(self.tail)
        &&& match self.value {
            PartValue::Section(section, fields) => self.key == section_key(section) && are_fields(
                section,
                fields,
            ),
            PartValue::Other(text) => Value::Other(text).wf() && (is_free(self.key) || text[0]
                != 0x7b),
        }
    }

    pub open spec fn text(self) -> Seq<u8> {
        match self.value {
            PartValue::Section(_, fields) => seq![0x7bu8] + fields_from(fields, 0),
            PartValue::Other(text) => text,
        }
    }
}

/// The parts from the `i`-th on and the end of the document.
pub open spec fn parts_from(parts: Seq<Part>, i: int) -> Seq<u8>
    decreases parts.len() - i,
{
    if 0 <= i < parts.len() {
        let p = parts[i];
        header(p.comma, p.lead, p.key, p.gap) + (p.pad + p.text() + (p.tail + parts_from(
            parts,
            i + 1,
        )))
    } else {
        seq![0x7du8]
    }
}

/// The parts are well written. Commas between them may be missing where there is a gap.
pub open spec fn are_parts(parts: Seq<Part>) -> bool {
    &&& forall|k: int|
        0 <= k < parts.len() - 1 ==> (#[trigger] parts[k]).tail.len() > 0 || parts[k + 1].comma
    &&& forall|k: int| 0 <= k < parts.len() ==> (#[trigger] parts[k]).wf()
}

/// A body as it is written: an object with these parts, and what stands around it.
pub struct Document {
    pub before: Seq<u8>,
    pub parts: Seq<Part>,
    pub behind: Seq<u8>,
}

impl Document {
    /// Every part is well written, and the body is no longer than is read.
    pub open spec fn wf(self) -> bool {
        &&& is_gap(self.before)
        &&& are_parts(self.parts)
        &&& self.text().len() <= 65_536
    }

    pub open spec fn text(self) -> Seq<u8> {
        self.before + (seq![0x7bu8] + parts_from(self.parts, 0) + self.behind)
    }

    /// The `i`-th part is the section with these fields, and no other part is that section.
    pub open spec fn has_section(self, i: int, section: Section, fields: Seq<Field>) -> bool {
        &&& 0 <= i < self.parts.len()
        &&& self.parts[i].value == PartValue::Section(section, fields)
        &&& forall|k: int|
            0 <= k < self.parts.len() && k != i ==> !is_section(#[trigger] self.parts[k], section)
    }
}

/// The part is that section.
pub open spec fn is_section(part: Part, section: Section) -> bool {
    part.value matches PartValue::Section(own, _) && own == section
}

/// The `j`-th field has this key and this value, and no other field has the key.
pub open spec fn has_field(fields: Seq<Field>, j: int, key: Seq<u8>, value: Value) -> bool {
    &&& 0 <= j < fields.len()
    &&& fields[j].key == key
    &&& fields[j].value == value
    &&& forall|k: int| 0 <= k < fields.len() && k != j ==> (#[trigger] fields[k]).key != key
}

/// The transaction after a part was told.
pub open spec fn told_part(part: Part, tx: TxText) -> TxText {
    match part.value {
        PartValue::Section(section, fields) => told_from(section, fields, 0, tx),
        PartValue::Other(_) => tx,
    }
}

/// The transaction after the parts from the `i`-th on were told.
pub open spec fn told_parts(parts: Seq<Part>, i: int, tx: TxText) -> TxText
    decreases parts.len() - i,
{
    if 0 <= i < parts.len() {
        told_parts(parts, i + 1, told_part(parts[i], tx))
    } else {
        tx
    }
}

proof fn lemma_parts_from(parts: Seq<Part>, i: int)
    ensures
        parts_from(parts, i).len() > 0,
        0 <= i < parts.len() && parts[i].comma ==> parts_from(parts, i)[0] == 0x2c,
        i >= parts.len() ==> parts_from(parts, i)[0] == 0x7d,
{
    if 0 <= i < parts.len() {
        let p = parts[i];
        let head = header(p.comma, p.lead, p.key, p.gap);
        assert(head.len() > 0);
        assert(parts_from(parts, i)[0] == head[0]);
        if p.comma {
            assert(head[0] == 0x2c);
        }
    }
}

/// A section is read as what its fields tell.
proof fn lemma_section_told(
    section: Section,
    text: Seq<u8>,
    pos: int,
    pad: Seq<u8>,
    fields: Seq<Field>,
    tx: TxText,
)
    requires
        are_fields(section, fields),
        is_gap(pad),
        stands(text, pos, pad + (seq![0x7bu8] + fields_from(fields, 0))),
    ensures
        section_at(section, text, pos, tx) == (
            told_from(section, fields, 0, tx),
            pos + pad.len() + 1 + fields_from(fields, 0).len(),
        ),
{
    let rest = fields_from(fields, 0);
    let first = pos + pad.len();
    lemma_split(text, pos, pad, seq![0x7bu8] + rest);
    lemma_split(text, first, seq![0x7bu8], rest);
    assert(text[first + 0] == seq![0x7bu8][0]);
    lemma_gap(text, pos, pad);
    assert(Seq::<u8>::empty() + rest =~= rest);
    lemma_fields_told(section, text, first + 1, Seq::empty(), fields, 0, tx);
    lemma_words();
    lemma_no_word(text, first, null_word());
    assert(after_space(text, first) == first);
}

/// Where reading goes on behind the value of a part, and with what.
spec fn after_part(text: Seq<u8>, pos: int, key: Seq<u8>, tx: TxText) -> (TxText, int) {
    match section_named(key) {
        Some(section) => section_at(section, text, pos, tx),
        None => (tx, after_value(text, pos)),
    }
}

/// A part is read as what it tells.
proof fn lemma_part_told(text: Seq<u8>, pos: int, p: Part, tx: TxText)
    requires
        p.wf(),
        stands(text, pos, p.pad + p.text()),
        pos + p.pad.len() + p.text().len() < text.len(),
        is_stop(text[pos + p.pad.len() + p.text().len()]),
    ensures
        after_part(text, pos, p.key, tx) == (
            told_part(p, tx),
            pos + p.pad.len() + p.text().len(),
        ),
{
    lemma_section_keys();
    match p.value {
        PartValue::Section(section, fields) => {
            assert(section_named(section_key(section)) == Some(section));
            lemma_section_told(section, text, pos, p.pad, fields, tx);
        },
        PartValue::Other(other) => {
            lemma_other(text, pos, p.pad, other);
            if !is_free(p.key) {
                let section = choose|section: Section| p.key == #[trigger] section_key(section);
                lemma_no_section(section, text, pos, p.pad, other, tx);
            }
        },
    }
}

/// Under the key of a section, anything but an object says nothing.
proof fn lemma_no_section(
    section: Section,
    text: Seq<u8>,
    pos: int,
    pad: Seq<u8>,
    value: Seq<u8>,
    tx: TxText,
)
    requires
        is_gap(pad),
        Value::Other(value).wf(),
        value[0] != 0x7b,
        stands(text, pos, pad + value),
        pos + pad.len() + value.len() < text.len(),
        is_stop(text[pos + pad.len() + value.len()]),
    ensures
        section_at(section, text, pos, tx) == (tx, pos + pad.len() + value.len()),
{
    let first = pos + pad.len();
    lemma_split(text, pos, pad, value);
    assert(text[first + 0] == value[0]);
    lemma_gap(text, pos, pad);
    assert(Seq::<u8>::empty() + value =~= value);
    lemma_other(text, first, Seq::empty(), value);
    assert(after_space(text, first) == first);
    lemma_words();
    if value[0] == 0x6e {
        let own = value.push(0x7d);
        assert(own[0] == 0x6e);
        assert(occurs_at(own, null_word(), 0) && value.len() == 4);
        assert(value =~= own.subrange(0, 4));
        lemma_word(text, first, null_word());
    } else {
        lemma_no_word(text, first, null_word());
    }
}

/// The parts of a document are read as what they tell.
proof fn lemma_parts_told(
    text: Seq<u8>,
    pos: int,
    blank: Seq<u8>,
    parts: Seq<Part>,
    i: int,
    tx: TxText,
)
    requires
        0 <= i <= parts.len(),
        are_parts(parts),
        is_gap(blank),
        stands(text, pos, blank + parts_from(parts, i)),
    ensures
        sections(text, pos, tx) == (TxText { complete: true, ..told_parts(parts, i, tx) }),
    decreases parts.len() - i,
{
    let rest = parts_from(parts, i);
    lemma_parts_from(parts, i);
    if i < parts.len() {
        let p = parts[i];
        assert(p.wf());
        let head = header(p.comma, p.lead, p.key, p.gap);
        let value = p.pad + p.text();
        let more = p.tail + parts_from(parts, i + 1);
        let start = pos + blank.len() + head.len();
        let end = start + value.len();
        assert(blank + rest =~= (blank + head) + (value + more));
        lemma_split(text, pos, blank + head, value + more);
        lemma_split(text, start, value, more);
        lemma_header(text, pos, blank, p.comma, p.lead, p.key, p.gap);
        lemma_parts_from(parts, i + 1);
        lemma_stop(text, end, p.tail, parts_from(parts, i + 1));
        lemma_part_told(text, start, p, tx);
        lemma_parts_told(text, end, p.tail, parts, i + 1, told_part(p, tx));
    } else {
        lemma_split(text, pos, blank, rest);
        assert(text[pos + blank.len() + 0] == rest[0]);
        lemma_gap(text, pos, blank);
    }
}

/// A document is read as what its parts tell.
pub proof fn lemma_document_told(doc: Document)
    requires
        doc.wf(),
    ensures
        scanned(doc.text()) == (TxText {
            complete: true,
            ..told_parts(doc.parts, 0, unread())
        }),
{
    let text = doc.text();
    let open = doc.before.len() as int;
    let rest = parts_from(doc.parts, 0);
    assert(stands(text, 0, text));
    lemma_split(text, 0, doc.before, seq![0x7bu8] + rest + doc.behind);
    lemma_split(text, open, seq![0x7bu8] + rest, doc.behind);
    lemma_split(text, open, seq![0x7bu8], rest);
    assert(text[open + 0] == seq![0x7bu8][0]);
    lemma_gap(text, 0, doc.before);
    assert(Seq::<u8>::empty() + rest =~= rest);
    lemma_parts_told(text, open + 1, Seq::empty(), doc.parts, 0, unread());
}

} // verus!
