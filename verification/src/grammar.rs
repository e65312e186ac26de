//! JSON as it is meant to be written, and that the lenient reader reads it so: it ends where a
//! value ends.
//!
//! The grammar is a little wider than that of JSON: a string may hold any byte, a number may
//! start with zeros or lack the digits on one side of its dot, and a comma may end an array of
//! strings.
use vstd::prelude::*;
use vstd::string::StringSliceAdditionalSpecFns;

use crate::bytes::{
    is_digit, occurs_at, CLOSE_BRACE, CLOSE_BRACKET, COMMA, DOT, LOWER_F, LOWER_N, LOWER_T, MINUS,
    OPEN_BRACE, OPEN_BRACKET, QUOTE,
};
use crate::json::{
    after_digits, after_mantissa, after_nesting, after_number, after_sign, after_space,
    after_value, bool_at, byte_at, closing_quote, colon_at, decimal_at, is_exponent_mark, key_at,
    lemma_after_digits, lemma_after_number, lemma_after_space, lemma_closing_quote,
    lemma_colon_at, null_at, number_at, string_at,
};
use crate::order::{
    all_written, closed, is_blank, is_member, is_unrepeated, law_member_order, named, object,
    texts, value_start, Spaced,
};
use crate::parser::{
    bool_field, known_at, known_items, mcc_field, member, members, number_field, scanned,
    section_at, section_named, string_field, unread, with_known, Section, TxText, MAX_BODY,
};

verus! {

/// Where the string ends that starts at `pos`.
pub open spec fn string_end(text: Seq<u8>, pos: int) -> Option<int> {
    if byte_at(text, pos) == Some(QUOTE) {
        match closing_quote(text, pos + 1) {
            Some(close) => Some(close + 1),
            None => None,
        }
    } else {
        None
    }
}

/// A number may start with this byte.
pub open spec fn starts_number(b: Option<u8>) -> bool {
    b matches Some(b) && (is_digit(b) || b == MINUS)
}

/// Where the JSON value ends that starts at `pos`.
pub open spec fn json_end(text: Seq<u8>, pos: int) -> Option<int>
    decreases text.len() - pos, 1int,
{
    match byte_at(text, pos) {
        None => None,
        Some(b) => if b == QUOTE {
            string_end(text, pos)
        } else if b == OPEN_BRACE {
            let first = after_space(text, pos + 1);
            if byte_at(text, first) == Some(CLOSE_BRACE) {
                Some(first + 1)
            } else {
                members_end(text, pos + 1)
            }
        } else if b == OPEN_BRACKET {
            let first = after_space(text, pos + 1);
            if byte_at(text, first) == Some(CLOSE_BRACKET) {
                Some(first + 1)
            } else {
                items_end(text, pos + 1)
            }
        } else if b == LOWER_T && occurs_at(text, "true".spec_bytes(), pos) {
            Some(pos + 4)
        } else if b == LOWER_F && occurs_at(text, "false".spec_bytes(), pos) {
            Some(pos + 5)
        } else if b == LOWER_N && occurs_at(text, "null".spec_bytes(), pos) {
            Some(pos + 4)
        } else if starts_number(Some(b)) && decimal_at(text, pos) {
            Some(after_number(text, pos))
        } else {
            None
        },
    }
}

/// Where the value of the member starts whose key stands at `pos`.
pub open spec fn member_value(text: Seq<u8>, pos: int) -> Option<int> {
    match string_end(text, after_space(text, pos)) {
        Some(next) => match colon_at(text, next) {
            (true, value) => Some(after_space(text, value)),
            _ => None,
        },
        None => None,
    }
}

/// Where an object ends of which the next member stands at `pos`.
pub open spec fn members_end(text: Seq<u8>, pos: int) -> Option<int>
    decreases text.len() - pos, 0int,
{
    match member_value(text, pos) {
        Some(value) if pos < value <= text.len() => match json_end(text, value) {
            Some(end) if value < end <= text.len() => {
                let next = after_space(text, end);
                if byte_at(text, next) == Some(COMMA) && end <= next {
                    members_end(text, next + 1)
                } else if byte_at(text, next) == Some(CLOSE_BRACE) {
                    Some(next + 1)
                } else {
                    None
                }
            },
            _ => None,
        },
        _ => None,
    }
}

/// Where an array ends of which the next item stands at `pos`.
pub open spec fn items_end(text: Seq<u8>, pos: int) -> Option<int>
    decreases text.len() - pos, 2int,
{
    let value = after_space(text, pos);
    if 0 <= pos <= value <= text.len() {
        match json_end(text, value) {
            Some(end) if value < end <= text.len() => {
                let next = after_space(text, end);
                if byte_at(text, next) == Some(COMMA) && end <= next {
                    items_end(text, next + 1)
                } else if byte_at(text, next) == Some(CLOSE_BRACKET) {
                    Some(next + 1)
                } else {
                    None
                }
            },
            _ => None,
        }
    } else {
        None
    }
}

/// A byte that opens and closes nothing.
spec fn is_plain(b: u8) -> bool {
    b != QUOTE && b != OPEN_BRACE && b != OPEN_BRACKET && b != CLOSE_BRACE && b != CLOSE_BRACKET
}

proof fn lemma_plain(text: Seq<u8>, pos: int, end: int, depth: nat)
    requires
        0 <= pos <= end <= text.len(),
        forall|k: int| pos <= k < end ==> is_plain(#[trigger] text[k]),
        depth > 0,
    ensures
        after_nesting(text, pos, depth) == after_nesting(text, end, depth),
    decreases end - pos,
{
    if pos < end {
        assert(is_plain(text[pos]));
        lemma_plain(text, pos + 1, end, depth);
    }
}

proof fn lemma_space_plain(text: Seq<u8>, pos: int, depth: nat)
    requires
        0 <= pos <= text.len(),
        depth > 0,
    ensures
        after_nesting(text, pos, depth) == after_nesting(text, after_space(text, pos), depth),
{
    lemma_after_space(text, pos);
    lemma_plain(text, pos, after_space(text, pos), depth);
}

proof fn lemma_words_plain(text: Seq<u8>, pos: int)
    ensures
        occurs_at(text, "true".spec_bytes(), pos) ==> text[pos] == LOWER_T,
        occurs_at(text, "true".spec_bytes(), pos) ==> pos + 4 <= text.len() && forall|k: int|
            pos <= k < pos + 4 ==> is_plain(#[trigger] text[k]),
        occurs_at(text, "false".spec_bytes(), pos) ==> pos + 5 <= text.len() && forall|k: int|
            pos <= k < pos + 5 ==> is_plain(#[trigger] text[k]),
        occurs_at(text, "null".spec_bytes(), pos) ==> pos + 4 <= text.len() && forall|k: int|
            pos <= k < pos + 4 ==> is_plain(#[trigger] text[k]),
{
    reveal_strlit("true");
    reveal_strlit("false");
    reveal_strlit("null");
    assert("true".is_ascii());
    assert("false".is_ascii());
    assert("null".is_ascii());
    if occurs_at(text, "true".spec_bytes(), pos) {
        assert(text.subrange(pos, pos + 4)[0] == text[pos]);
        assert forall|k: int| pos <= k < pos + 4 implies is_plain(#[trigger] text[k]) by {
            assert(text.subrange(pos, pos + 4)[k - pos] == text[k]);
        }
    }
    if occurs_at(text, "false".spec_bytes(), pos) {
        assert forall|k: int| pos <= k < pos + 5 implies is_plain(#[trigger] text[k]) by {
            assert(text.subrange(pos, pos + 5)[k - pos] == text[k]);
        }
    }
    if occurs_at(text, "null".spec_bytes(), pos) {
        assert forall|k: int| pos <= k < pos + 4 implies is_plain(#[trigger] text[k]) by {
            assert(text.subrange(pos, pos + 4)[k - pos] == text[k]);
        }
    }
}

proof fn lemma_number_plain(text: Seq<u8>, pos: int)
    requires
        0 <= pos <= text.len(),
    ensures
        pos <= after_number(text, pos) <= text.len(),
        decimal_at(text, pos) ==> pos < after_number(text, pos),
        forall|k: int| pos <= k < after_number(text, pos) ==> is_plain(#[trigger] text[k]),
{
    lemma_after_number(text, pos);
    let first = after_sign(text, pos);
    lemma_after_digits(text, first);
    let whole = after_digits(text, first);
    if byte_at(text, whole) == Some(DOT) {
        lemma_after_digits(text, whole + 1);
    }
    let mark = after_mantissa(text, pos);
    if is_exponent_mark(byte_at(text, mark)) {
        lemma_after_digits(text, after_sign(text, mark + 1));
    }
}

/// A value leaves the nesting as it was, and an object or an array that is open is closed by its
/// end.
proof fn lemma_json_nests(text: Seq<u8>, pos: int, depth: nat)
    requires
        0 <= pos,
    ensures
        json_end(text, pos) matches Some(end) ==> pos < end <= text.len() && (depth > 0
            ==> after_nesting(text, pos, depth) == after_nesting(text, end, depth)),
    decreases text.len() - pos, 1int,
{
    if let Some(end) = json_end(text, pos) {
        let b = text[pos];
        if b == QUOTE {
            lemma_closing_quote(text, pos + 1);
        } else if b == OPEN_BRACE {
            let first = after_space(text, pos + 1);
            lemma_after_space(text, pos + 1);
            lemma_space_plain(text, pos + 1, depth + 1);
            if byte_at(text, first) != Some(CLOSE_BRACE) {
                lemma_members_nest(text, pos + 1, depth);
            }
        } else if b == OPEN_BRACKET {
            let first = after_space(text, pos + 1);
            lemma_after_space(text, pos + 1);
            lemma_space_plain(text, pos + 1, depth + 1);
            if byte_at(text, first) != Some(CLOSE_BRACKET) {
                lemma_items_nest(text, pos + 1, depth);
            }
        } else {
            lemma_words_plain(text, pos);
            lemma_number_plain(text, pos);
            if depth > 0 {
                lemma_plain(text, pos, end, depth);
            }
        }
    }
}

proof fn lemma_members_nest(text: Seq<u8>, pos: int, depth: nat)
    requires
        0 <= pos <= text.len(),
    ensures
        members_end(text, pos) matches Some(end) ==> pos < end <= text.len() && after_nesting(
            text,
            pos,
            depth + 1,
        ) == after_nesting(text, end, depth),
    decreases text.len() - pos, 0int,
{
    if members_end(text, pos) is Some {
        let key = after_space(text, pos);
        lemma_after_space(text, pos);
        lemma_space_plain(text, pos, depth + 1);
        lemma_closing_quote(text, key + 1);
        let next = string_end(text, key)->0;
        lemma_colon_at(text, next);
        lemma_after_space(text, next);
        lemma_space_plain(text, next, depth + 1);
        let colon = after_space(text, next);
        lemma_plain(text, colon, colon + 1, depth + 1);
        lemma_space_plain(text, colon + 1, depth + 1);
        lemma_after_space(text, colon + 1);
        let value = member_value(text, pos)->0;
        assert(value == after_space(text, colon + 1));
        lemma_json_nests(text, value, depth + 1);
        let end = json_end(text, value)->0;
        lemma_after_space(text, end);
        lemma_space_plain(text, end, depth + 1);
        let mark = after_space(text, end);
        if byte_at(text, mark) == Some(COMMA) {
            lemma_plain(text, mark, mark + 1, depth + 1);
            lemma_members_nest(text, mark + 1, depth);
        }
    }
}

proof fn lemma_items_nest(text: Seq<u8>, pos: int, depth: nat)
    requires
        0 <= pos <= text.len(),
    ensures
        items_end(text, pos) matches Some(end) ==> pos < end <= text.len() && after_nesting(
            text,
            pos,
            depth + 1,
        ) == after_nesting(text, end, depth),
    decreases text.len() - pos, 2int,
{
    if items_end(text, pos) is Some {
        let value = after_space(text, pos);
        lemma_after_space(text, pos);
        lemma_space_plain(text, pos, depth + 1);
        lemma_json_nests(text, value, depth + 1);
        let end = json_end(text, value)->0;
        lemma_after_space(text, end);
        lemma_space_plain(text, end, depth + 1);
        let mark = after_space(text, end);
        if byte_at(text, mark) == Some(COMMA) {
            lemma_plain(text, mark, mark + 1, depth + 1);
            lemma_items_nest(text, mark + 1, depth);
        }
    }
}

/// A JSON value is passed to its end.
pub proof fn law_json_is_passed(text: Seq<u8>, pos: int)
    requires
        0 <= pos,
        json_end(text, pos) is Some,
    ensures
        after_value(text, pos) == json_end(text, pos)->0,
        pos < json_end(text, pos)->0 <= text.len(),
{
    lemma_json_nests(text, pos, 1);
    let b = text[pos];
    assert(after_space(text, pos) == pos);
    if b == OPEN_BRACE {
        let first = after_space(text, pos + 1);
        lemma_after_space(text, pos + 1);
        lemma_space_plain(text, pos + 1, 1);
        if byte_at(text, first) != Some(CLOSE_BRACE) {
            lemma_members_nest(text, pos + 1, 0);
        }
        assert(after_nesting(text, first + 1, 0) == first + 1);
    } else if b == OPEN_BRACKET {
        let first = after_space(text, pos + 1);
        lemma_after_space(text, pos + 1);
        lemma_space_plain(text, pos + 1, 1);
        if byte_at(text, first) != Some(CLOSE_BRACKET) {
            lemma_items_nest(text, pos + 1, 0);
        }
        assert(after_nesting(text, first + 1, 0) == first + 1);
    } else if b == QUOTE {
        assert(after_value(text, pos) == string_at(text, pos).1);
    } else if b == LOWER_T || b == LOWER_F {
        lemma_words_plain(text, pos);
        assert(after_value(text, pos) == bool_at(text, pos).1);
    } else if b == LOWER_N {
        assert(after_value(text, pos) == null_at(text, pos).1);
    } else {
        assert(after_value(text, pos) == number_at(text, pos).1);
    }
}

/// What the value of a field is expected to be.
pub enum Kind {
    Number,
    Text,
    /// A string or a number.
    Code,
    Truth,
    /// An array of strings.
    Ids,
    Any,
}

/// What the value of a section's field is expected to be, by its key.
pub open spec fn expected(section: Section, key: Seq<u8>) -> Kind {
    match section {
        Section::Transaction => if key == "amount".spec_bytes() || key
            == "installments".spec_bytes() {
            Kind::Number
        } else if key == "requested_at".spec_bytes() {
            Kind::Text
        } else {
            Kind::Any
        },
        Section::Customer => if key == "avg_amount".spec_bytes() || key
            == "tx_count_24h".spec_bytes() {
            Kind::Number
        } else if key == "known_merchants".spec_bytes() {
            Kind::Ids
        } else {
            Kind::Any
        },
        Section::Merchant => if key == "id".spec_bytes() {
            Kind::Text
        } else if key == "mcc".spec_bytes() {
            Kind::Code
        } else if key == "avg_amount".spec_bytes() {
            Kind::Number
        } else {
            Kind::Any
        },
        Section::Terminal => if key == "is_online".spec_bytes() || key
            == "card_present".spec_bytes() {
            Kind::Truth
        } else if key == "km_from_home".spec_bytes() {
            Kind::Number
        } else {
            Kind::Any
        },
        Section::LastTransaction => if key == "timestamp".spec_bytes() {
            Kind::Text
        } else if key == "km_from_current".spec_bytes() {
            Kind::Number
        } else {
            Kind::Any
        },
    }
}

/// Where an array of strings ends of which the next stands at `pos`.
pub open spec fn ids_end(text: Seq<u8>, pos: int) -> Option<int>
    decreases text.len() - pos,
{
    let item = after_space(text, pos);
    if !(0 <= pos <= item < text.len()) {
        None
    } else if text[item] == CLOSE_BRACKET {
        Some(item + 1)
    } else {
        match string_end(text, item) {
            Some(end) if item < end <= text.len() => {
                let next = after_space(text, end);
                if byte_at(text, next) == Some(COMMA) && end <= next {
                    ids_end(text, next + 1)
                } else if byte_at(text, next) == Some(CLOSE_BRACKET) {
                    Some(next + 1)
                } else {
                    None
                }
            },
            _ => None,
        }
    }
}

/// Where the value ends that starts at `pos`, if it is of the kind.
pub open spec fn kind_end(kind: Kind, text: Seq<u8>, pos: int) -> Option<int> {
    let b = byte_at(text, pos);
    match kind {
        Kind::Number => if starts_number(b) {
            json_end(text, pos)
        } else {
            None
        },
        Kind::Text => string_end(text, pos),
        Kind::Code => if b == Some(QUOTE) || starts_number(b) {
            json_end(text, pos)
        } else {
            None
        },
        Kind::Truth => if b == Some(LOWER_T) || b == Some(LOWER_F) {
            json_end(text, pos)
        } else {
            None
        },
        Kind::Ids => if b == Some(OPEN_BRACKET) {
            ids_end(text, pos + 1)
        } else {
            None
        },
        Kind::Any => json_end(text, pos),
    }
}

/// The key of the member at `pos`.
pub open spec fn key_text(text: Seq<u8>, pos: int) -> Seq<u8> {
    let open = after_space(text, pos);
    text.subrange(open + 1, closing_quote(text, open + 1)->0)
}

/// Where a section ends of which the next field stands at `pos`.
pub open spec fn fields_end(section: Section, text: Seq<u8>, pos: int) -> Option<int>
    decreases text.len() - pos,
{
    match member_value(text, pos) {
        Some(value) if 0 <= pos < value <= text.len() => match kind_end(
            expected(section, key_text(text, pos)),
            text,
            value,
        ) {
            Some(end) if value < end <= text.len() => {
                let next = after_space(text, end);
                if byte_at(text, next) == Some(COMMA) && end <= next {
                    fields_end(section, text, next + 1)
                } else if byte_at(text, next) == Some(CLOSE_BRACE) {
                    Some(next + 1)
                } else {
                    None
                }
            },
            _ => None,
        },
        _ => None,
    }
}

/// Where the section ends that starts at `pos`: an object whose fields are as expected, or a
/// value of another kind.
pub open spec fn section_end(section: Section, text: Seq<u8>, pos: int) -> Option<int> {
    if byte_at(text, pos) == Some(OPEN_BRACE) {
        let first = after_space(text, pos + 1);
        if byte_at(text, first) == Some(CLOSE_BRACE) {
            Some(first + 1)
        } else {
            fields_end(section, text, pos + 1)
        }
    } else {
        json_end(text, pos)
    }
}

/// A member of a JSON object, with white space around it; if it is a section, its fields are as
/// expected.
pub open spec fn is_json_member(m: Seq<u8>) -> bool {
    let text = closed(m);
    match member_value(text, 0) {
        Some(value) => {
            let end = match section_named(key_text(text, 0)) {
                Some(section) => section_end(section, text, value),
                None => json_end(text, value),
            };
            end matches Some(end) && after_space(text, end) == m.len()
        },
        None => false,
    }
}

proof fn lemma_ids_read(text: Seq<u8>, pos: int, known: Seq<Seq<u8>>)
    requires
        ids_end(text, pos) is Some,
    ensures
        known_items(text, pos, known).1 == ids_end(text, pos)->0,
        pos < ids_end(text, pos)->0 <= text.len(),
    decreases text.len() - pos,
{
    let item = after_space(text, pos);
    lemma_after_space(text, pos);
    if text[item] != CLOSE_BRACKET {
        lemma_closing_quote(text, item + 1);
        assert(after_space(text, item) == item);
        let end = string_end(text, item)->0;
        assert(string_at(text, item).1 == end);
        let id = string_at(text, item).0->0;
        let more = with_known(known, id);
        assert(known_items(text, pos, known) == known_items(text, end, more));
        lemma_after_space(text, end);
        let next = after_space(text, end);
        if byte_at(text, next) == Some(COMMA) {
            lemma_ids_read(text, next + 1, more);
        }
    }
}

/// A field is read to the end of its value; `pos` stands behind its colon.
proof fn lemma_field_read(
    section: Section,
    text: Seq<u8>,
    pos: int,
    key: Seq<u8>,
    tx: TxText,
)
    requires
        0 <= pos <= text.len(),
        kind_end(expected(section, key), text, after_space(text, pos)) is Some,
    ensures
        member(section, text, pos, key, tx).1 == kind_end(
            expected(section, key),
            text,
            after_space(text, pos),
        )->0,
{
    let value = after_space(text, pos);
    lemma_after_space(text, pos);
    let kind = expected(section, key);
    let end = kind_end(kind, text, value)->0;
    if json_end(text, value) is Some {
        law_json_is_passed(text, value);
        assert(after_value(text, pos) == after_value(text, value));
    }
    match kind {
        Kind::Number => {
            assert(number_field(text, pos).1 == end);
        },
        Kind::Text => {
            assert(string_field(text, pos).1 == end);
        },
        Kind::Code => {
            if byte_at(text, value) == Some(QUOTE) {
                assert(mcc_field(text, pos).1 == end);
            } else {
                assert(string_at(text, pos) == (None::<Seq<u8>>, value));
                assert(number_field(text, value).1 == end);
                assert(mcc_field(text, pos).1 == end);
            }
        },
        Kind::Truth => {
            lemma_words_plain(text, value);
            assert(bool_field(text, pos).1 == end);
        },
        Kind::Ids => {
            lemma_ids_read(text, value + 1, tx.known_merchants);
            assert(known_at(text, pos, tx.known_merchants).1 == end);
        },
        Kind::Any => {},
    }
}

/// A section is read to its end, whatever was read before it.
proof fn lemma_fields_read(section: Section, text: Seq<u8>, pos: int, tx: TxText)
    requires
        0 <= pos <= text.len(),
        fields_end(section, text, pos) is Some,
    ensures
        members(section, text, pos, tx).1 == fields_end(section, text, pos)->0,
        pos < fields_end(section, text, pos)->0 <= text.len(),
        text[fields_end(section, text, pos)->0 - 1] == CLOSE_BRACE,
    decreases text.len() - pos,
{
    lemma_member_read(text, pos);
    let key = key_text(text, pos);
    let next = string_end(text, after_space(text, pos))->0;
    let value = colon_at(text, next).1;
    lemma_field_read(section, text, value, key, tx);
    let (tx2, end) = member(section, text, value, key, tx);
    assert(members(section, text, pos, tx) == members(section, text, end, tx2));
    lemma_after_space(text, end);
    let mark = after_space(text, end);
    if byte_at(text, mark) == Some(COMMA) {
        lemma_fields_read(section, text, mark + 1, tx2);
        lemma_member_read(text, mark + 1);
        assert(key_at(text, end) == key_at(text, mark + 1));
        assert(members(section, text, end, tx2) == members(section, text, mark + 1, tx2));
    }
}

/// A member's key and colon are read as they stand.
proof fn lemma_member_read(text: Seq<u8>, pos: int)
    requires
        0 <= pos <= text.len(),
        member_value(text, pos) is Some,
    ensures
        byte_at(text, after_space(text, pos)) == Some(QUOTE),
        key_at(text, pos) == (
            Some(key_text(text, pos)),
            string_end(text, after_space(text, pos))->0,
        ),
        ({
            let next = string_end(text, after_space(text, pos))->0;
            let (found, value) = colon_at(text, next);
            found && pos < next < value <= text.len() && member_value(text, pos) == Some(
                after_space(text, value),
            )
        }),
{
    lemma_after_space(text, pos);
    let open = after_space(text, pos);
    lemma_after_space(text, open);
    lemma_closing_quote(text, open + 1);
    let next = string_end(text, open)->0;
    lemma_colon_at(text, next);
    lemma_after_space(text, next);
}

/// The lenient reader reads a well-formed member as a member: to its end and no further.
pub proof fn law_json_member_is_read(m: Seq<u8>)
    requires
        is_json_member(m),
    ensures
        is_member(m),
{
    let text = closed(m);
    lemma_member_read(text, 0);
    let next = string_end(text, after_space(text, 0))->0;
    let value = value_start(m);
    let start = after_space(text, value);
    lemma_after_space(text, value);
    assert(member_value(text, 0) == Some(start));
    match section_named(key_text(text, 0)) {
        Some(section) => {
            let end = section_end(section, text, start)->0;
            if byte_at(text, start) == Some(OPEN_BRACE) {
                reveal_strlit("null");
                assert("null".is_ascii());
                if occurs_at(text, "null".spec_bytes(), start) {
                    assert(text.subrange(start, start + 4)[0] == text[start]);
                }
                let first = after_space(text, start + 1);
                lemma_after_space(text, start + 1);
                if byte_at(text, first) != Some(CLOSE_BRACE) {
                    lemma_fields_read(section, text, start + 1, unread());
                }
                assert(members(section, text, start + 1, unread()).1 == end);
            } else {
                law_json_is_passed(text, start);
                assert(after_value(text, start) == end);
                if null_at(text, start).0 {
                    lemma_null_end(text, start);
                }
            }
            assert(section_at(section, text, value, unread()).1 == end);
            assert(start < end <= text.len());
            lemma_after_space(text, end);
        },
        None => {
            law_json_is_passed(text, start);
            assert(after_value(text, value) == after_value(text, start));
            lemma_after_space(text, json_end(text, start)->0);
        },
    }
}

proof fn lemma_null_end(text: Seq<u8>, pos: int)
    requires
        0 <= pos < text.len(),
        json_end(text, pos) is Some,
        null_at(text, pos).0,
        after_space(text, pos) == pos,
    ensures
        null_at(text, pos).1 == json_end(text, pos)->0,
{
    reveal_strlit("null");
    assert("null".is_ascii());
    assert(text.subrange(pos, pos + 4)[0] == text[pos]);
}

/// Two well-formed bodies with the same sections, none of them repeated, say the same, in
/// whatever order their members come, with whatever space around them, and whatever other
/// members stand among them.
pub proof fn law_well_formed_order(
    before1: Seq<u8>,
    ms1: Seq<Spaced>,
    behind1: Seq<u8>,
    before2: Seq<u8>,
    ms2: Seq<Spaced>,
    behind2: Seq<u8>,
)
    requires
        is_blank(before1),
        is_blank(before2),
        forall|k: int|
            0 <= k < ms1.len() ==> (#[trigger] ms1[k]).wf() && is_json_member(ms1[k].text),
        forall|k: int|
            0 <= k < ms2.len() ==> (#[trigger] ms2[k]).wf() && is_json_member(ms2[k].text),
        is_unrepeated(texts(ms1)),
        is_unrepeated(texts(ms2)),
        forall|m: Seq<u8>|
            #![trigger texts(ms1).contains(m)]
            #![trigger texts(ms2).contains(m)]
            named(m) is Some ==> texts(ms1).contains(m) == texts(ms2).contains(m),
        object(before1, all_written(ms1), behind1).len() <= MAX_BODY,
        object(before2, all_written(ms2), behind2).len() <= MAX_BODY,
    ensures
        scanned(object(before1, all_written(ms1), behind1)) == scanned(
            object(before2, all_written(ms2), behind2),
        ),
{
    assert forall|k: int| 0 <= k < ms1.len() implies is_member((#[trigger] ms1[k]).text) by {
        law_json_member_is_read(ms1[k].text);
    }
    assert forall|k: int| 0 <= k < ms2.len() implies is_member((#[trigger] ms2[k]).text) by {
        law_json_member_is_read(ms2[k].text);
    }
    law_member_order(before1, ms1, behind1, before2, ms2, behind2);
}

} // verus!
