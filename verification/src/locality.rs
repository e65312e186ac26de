//! What a reader gives back depends on the bytes that it passes, and not on what stands before
//! or behind them: in two texts with a stretch in common it reads the same there.
use vstd::prelude::*;
use vstd::string::StringSliceAdditionalSpecFns;

use crate::bytes::{
    is_digit, occurs_at, BACKSLASH, CLOSE_BRACE, CLOSE_BRACKET, COMMA, DOT, LOWER_F, LOWER_N,
    LOWER_T, OPEN_BRACE, OPEN_BRACKET, QUOTE,
};
use crate::json::{
    after_digits, after_mantissa, after_nesting, after_number, after_sign, after_space,
    after_value, bool_at, byte_at, closing_quote, colon_at, decimal_at, is_exponent_mark,
    is_json_space, key_at, lemma_after_nesting, lemma_after_space, lemma_after_value,
    lemma_bool_at, lemma_closing_quote, lemma_colon_at, lemma_key_at, lemma_number_at,
    lemma_string_at, null_at, number_at, string_at,
};
use crate::parser::{
    bool_field, customer_member, known_at, known_items, last_transaction_member, lemma_fields,
    lemma_known_items, lemma_member, lemma_members, mcc_field, member, members, merchant_member,
    number_field, section_at, string_field, terminal_member, transaction_member, with_known,
    Section, TxText,
};

verus! {

/// What may stand behind a member.
pub open spec fn is_end_mark(b: u8) -> bool {
    b == COMMA || b == CLOSE_BRACE || is_json_space(b)
}

/// The bytes `lo..hi` of `a` stand in `b` too, `shift` further on; behind them stand a closing
/// brace in `a` and an end mark in `b`.
pub open spec fn in_common(a: Seq<u8>, b: Seq<u8>, shift: int, lo: int, hi: int) -> bool {
    &&& 0 <= lo <= hi < a.len()
    &&& 0 <= lo + shift
    &&& hi + shift < b.len()
    &&& forall|x: int| lo <= x < hi ==> #[trigger] a[x] == b[x + shift]
    &&& a[hi] == CLOSE_BRACE
    &&& is_end_mark(b[hi + shift])
}

proof fn lemma_byte_local(a: Seq<u8>, b: Seq<u8>, shift: int, lo: int, hi: int, pos: int)
    requires
        in_common(a, b, shift, lo, hi),
        lo <= pos <= hi,
    ensures
        pos < hi ==> byte_at(b, pos + shift) == byte_at(a, pos),
        pos == hi ==> byte_at(a, pos) == Some(a[hi]) && byte_at(b, pos + shift) == Some(
            b[hi + shift],
        ),
{
    if pos < hi {
        assert(a[pos] == b[pos + shift]);
    }
}

proof fn lemma_part_local(
    a: Seq<u8>,
    b: Seq<u8>,
    shift: int,
    lo: int,
    hi: int,
    from: int,
    to: int,
)
    requires
        in_common(a, b, shift, lo, hi),
        lo <= from <= to <= hi,
    ensures
        b.subrange(from + shift, to + shift) == a.subrange(from, to),
{
    let there = b.subrange(from + shift, to + shift);
    let here = a.subrange(from, to);
    assert forall|k: int| 0 <= k < to - from implies #[trigger] there[k] == here[k] by {
        assert(a[from + k] == b[from + k + shift]);
    }
    assert(there =~= here);
}

/// White space ends at the same place.
pub proof fn lemma_space_local(a: Seq<u8>, b: Seq<u8>, shift: int, lo: int, hi: int, pos: int)
    requires
        in_common(a, b, shift, lo, hi),
        lo <= pos <= hi,
    ensures
        pos <= after_space(a, pos) <= hi,
        after_space(a, pos) < hi || !is_json_space(b[hi + shift]) ==> after_space(b, pos + shift)
            == after_space(a, pos) + shift,
    decreases hi - pos,
{
    lemma_byte_local(a, b, shift, lo, hi, pos);
    if is_json_space(a[pos]) {
        lemma_space_local(a, b, shift, lo, hi, pos + 1);
    }
}

proof fn lemma_digits_local(a: Seq<u8>, b: Seq<u8>, shift: int, lo: int, hi: int, pos: int)
    requires
        in_common(a, b, shift, lo, hi),
        lo <= pos <= hi,
    ensures
        pos <= after_digits(a, pos) <= hi,
        after_digits(b, pos + shift) == after_digits(a, pos) + shift,
    decreases hi - pos,
{
    lemma_byte_local(a, b, shift, lo, hi, pos);
    if is_digit(a[pos]) {
        lemma_digits_local(a, b, shift, lo, hi, pos + 1);
    }
}

proof fn lemma_quote_local(a: Seq<u8>, b: Seq<u8>, shift: int, lo: int, hi: int, pos: int)
    requires
        in_common(a, b, shift, lo, hi),
        lo <= pos,
        closing_quote(a, pos) matches Some(close) && close < hi,
    ensures
        closing_quote(b, pos + shift) == Some(closing_quote(a, pos)->0 + shift),
        pos <= closing_quote(a, pos)->0,
    decreases a.len() - pos,
{
    assert(pos < a.len());
    if pos >= hi {
        lemma_closing_quote(a, pos);
    } else {
        assert(a[pos] == b[pos + shift]);
        if a[pos] == BACKSLASH {
            if pos + 2 <= a.len() {
                lemma_quote_local(a, b, shift, lo, hi, pos + 2);
            }
        } else if a[pos] != QUOTE {
            lemma_quote_local(a, b, shift, lo, hi, pos + 1);
        }
    }
}

proof fn lemma_string_local(a: Seq<u8>, b: Seq<u8>, shift: int, lo: int, hi: int, pos: int)
    requires
        in_common(a, b, shift, lo, hi),
        lo <= pos <= hi,
        after_space(a, pos) < hi,
        string_at(a, pos).1 <= hi,
    ensures
        string_at(b, pos + shift) == (string_at(a, pos).0, string_at(a, pos).1 + shift),
        pos <= string_at(a, pos).1,
{
    lemma_string_at(a, pos);
    lemma_space_local(a, b, shift, lo, hi, pos);
    let open = after_space(a, pos);
    lemma_byte_local(a, b, shift, lo, hi, open);
    if byte_at(a, open) == Some(QUOTE) {
        let close = closing_quote(a, open + 1)->0;
        lemma_quote_local(a, b, shift, lo, hi, open + 1);
        lemma_part_local(a, b, shift, lo, hi, open + 1, close);
    }
}

/// A word without end marks in it stands at a place in both texts or in neither.
proof fn lemma_word_local(
    a: Seq<u8>,
    b: Seq<u8>,
    shift: int,
    lo: int,
    hi: int,
    pos: int,
    word: Seq<u8>,
)
    requires
        in_common(a, b, shift, lo, hi),
        lo <= pos <= hi,
        forall|k: int|
            0 <= k < word.len() ==> !is_end_mark(#[trigger] word[k]),
    ensures
        occurs_at(b, word, pos + shift) == occurs_at(a, word, pos),
        occurs_at(a, word, pos) ==> pos + word.len() <= hi,
{
    let n = word.len();
    if occurs_at(a, word, pos) {
        if pos + n > hi {
            assert(a.subrange(pos, pos + n)[hi - pos] == a[hi]);
            assert(word[hi - pos] == a[hi]);
        }
        lemma_part_local(a, b, shift, lo, hi, pos, pos + n);
    }
    if occurs_at(b, word, pos + shift) {
        if pos + n > hi {
            assert(b.subrange(pos + shift, pos + shift + n)[hi - pos] == b[hi + shift]);
            assert(word[hi - pos] == b[hi + shift]);
        }
        lemma_part_local(a, b, shift, lo, hi, pos, pos + n);
    }
}

/// The words for truth values and for nothing.
proof fn lemma_words()
    ensures
        forall|k: int|
            0 <= k < "true".spec_bytes().len() ==> !is_end_mark(#[trigger] "true".spec_bytes()[k]),
        forall|k: int|
            0 <= k < "false".spec_bytes().len() ==> !is_end_mark(#[trigger] "false".spec_bytes()[k]),
        forall|k: int|
            0 <= k < "null".spec_bytes().len() ==> !is_end_mark(#[trigger] "null".spec_bytes()[k]),
        "true".spec_bytes().len() == 4,
        "false".spec_bytes().len() == 5,
        "null".spec_bytes().len() == 4,
{
    reveal_strlit("true");
    reveal_strlit("false");
    reveal_strlit("null");
    assert("true".is_ascii());
    assert("false".is_ascii());
    assert("null".is_ascii());
}

proof fn lemma_bool_local(a: Seq<u8>, b: Seq<u8>, shift: int, lo: int, hi: int, pos: int)
    requires
        in_common(a, b, shift, lo, hi),
        lo <= pos <= hi,
        after_space(a, pos) < hi,
        bool_at(a, pos).1 <= hi,
    ensures
        bool_at(b, pos + shift) == (bool_at(a, pos).0, bool_at(a, pos).1 + shift),
        pos <= bool_at(a, pos).1,
{
    lemma_words();
    lemma_bool_at(a, pos);
    lemma_space_local(a, b, shift, lo, hi, pos);
    let word = after_space(a, pos);
    lemma_word_local(a, b, shift, lo, hi, word, "true".spec_bytes());
    lemma_word_local(a, b, shift, lo, hi, word, "false".spec_bytes());
    if !occurs_at(a, "true".spec_bytes(), word) && !occurs_at(a, "false".spec_bytes(), word) {
        lemma_string_local(a, b, shift, lo, hi, pos);
    }
}

proof fn lemma_null_local(a: Seq<u8>, b: Seq<u8>, shift: int, lo: int, hi: int, pos: int)
    requires
        in_common(a, b, shift, lo, hi),
        lo <= pos <= hi,
        after_space(a, pos) < hi,
    ensures
        null_at(b, pos + shift) == (null_at(a, pos).0, null_at(a, pos).1 + shift),
        pos <= null_at(a, pos).1 <= hi,
{
    lemma_words();
    lemma_space_local(a, b, shift, lo, hi, pos);
    lemma_word_local(a, b, shift, lo, hi, after_space(a, pos), "null".spec_bytes());
}

proof fn lemma_sign_local(a: Seq<u8>, b: Seq<u8>, shift: int, lo: int, hi: int, pos: int)
    requires
        in_common(a, b, shift, lo, hi),
        lo <= pos <= hi,
    ensures
        after_sign(b, pos + shift) == after_sign(a, pos) + shift,
        pos <= after_sign(a, pos) <= hi,
{
    lemma_byte_local(a, b, shift, lo, hi, pos);
}

proof fn lemma_number_local(a: Seq<u8>, b: Seq<u8>, shift: int, lo: int, hi: int, pos: int)
    requires
        in_common(a, b, shift, lo, hi),
        lo <= pos <= hi,
        after_space(a, pos) < hi,
    ensures
        number_at(b, pos + shift) == (number_at(a, pos).0, number_at(a, pos).1 + shift),
        pos <= number_at(a, pos).1 <= hi,
{
    lemma_space_local(a, b, shift, lo, hi, pos);
    let open = after_space(a, pos);
    lemma_byte_local(a, b, shift, lo, hi, open);
    let start = if byte_at(a, open) == Some(QUOTE) {
        open + 1
    } else {
        open
    };
    lemma_sign_local(a, b, shift, lo, hi, start);
    let first = after_sign(a, start);
    lemma_digits_local(a, b, shift, lo, hi, first);
    let whole = after_digits(a, first);
    lemma_byte_local(a, b, shift, lo, hi, whole);
    if byte_at(a, whole) == Some(DOT) {
        lemma_digits_local(a, b, shift, lo, hi, whole + 1);
    }
    let mark = after_mantissa(a, start);
    assert(after_mantissa(b, start + shift) == mark + shift);
    lemma_byte_local(a, b, shift, lo, hi, mark);
    if is_exponent_mark(byte_at(a, mark)) {
        lemma_sign_local(a, b, shift, lo, hi, mark + 1);
        lemma_digits_local(a, b, shift, lo, hi, after_sign(a, mark + 1));
    }
    let end = after_number(a, start);
    assert(after_number(b, start + shift) == end + shift);
    assert(start <= end <= hi);
    lemma_byte_local(a, b, shift, lo, hi, end);
    assert(decimal_at(b, start + shift) == decimal_at(a, start));
    lemma_part_local(a, b, shift, lo, hi, start, end);
}

proof fn lemma_nesting_local(
    a: Seq<u8>,
    b: Seq<u8>,
    shift: int,
    lo: int,
    hi: int,
    pos: int,
    depth: nat,
)
    requires
        in_common(a, b, shift, lo, hi),
        lo <= pos <= hi,
        after_nesting(a, pos, depth) <= hi,
    ensures
        after_nesting(b, pos + shift, depth) == after_nesting(a, pos, depth) + shift,
        pos <= after_nesting(a, pos, depth),
    decreases hi - pos,
{
    lemma_after_nesting(a, pos, depth);
    if depth != 0 {
        if pos < hi {
            assert(a[pos] == b[pos + shift]);
        }
        if a[pos] == QUOTE {
            lemma_closing_quote(a, pos + 1);
            if let Some(close) = closing_quote(a, pos + 1) {
                lemma_after_nesting(a, close + 1, depth);
                lemma_quote_local(a, b, shift, lo, hi, pos + 1);
                lemma_nesting_local(a, b, shift, lo, hi, close + 1, depth);
            }
        } else {
            let deeper = if a[pos] == OPEN_BRACE || a[pos] == OPEN_BRACKET {
                depth + 1
            } else if a[pos] == CLOSE_BRACE || a[pos] == CLOSE_BRACKET {
                (depth - 1) as nat
            } else {
                depth
            };
            lemma_after_nesting(a, pos + 1, deeper);
            lemma_nesting_local(a, b, shift, lo, hi, pos + 1, deeper);
        }
    }
}

pub proof fn lemma_value_local(a: Seq<u8>, b: Seq<u8>, shift: int, lo: int, hi: int, pos: int)
    requires
        in_common(a, b, shift, lo, hi),
        lo <= pos <= hi,
        after_space(a, pos) < hi,
        after_value(a, pos) <= hi,
    ensures
        after_value(b, pos + shift) == after_value(a, pos) + shift,
        pos <= after_value(a, pos),
{
    lemma_after_value(a, pos);
    lemma_after_space(a, pos);
    lemma_space_local(a, b, shift, lo, hi, pos);
    let first = after_space(a, pos);
    lemma_byte_local(a, b, shift, lo, hi, first);
    let c = a[first];
    if c == QUOTE {
        lemma_string_local(a, b, shift, lo, hi, first);
    } else if c == OPEN_BRACE || c == OPEN_BRACKET {
        lemma_after_nesting(a, first + 1, 1);
        lemma_nesting_local(a, b, shift, lo, hi, first + 1, 1);
    } else if c == LOWER_T || c == LOWER_F {
        lemma_bool_local(a, b, shift, lo, hi, first);
    } else if c == LOWER_N {
        lemma_null_local(a, b, shift, lo, hi, first);
    } else {
        lemma_number_local(a, b, shift, lo, hi, first);
    }
}

pub proof fn lemma_key_local(a: Seq<u8>, b: Seq<u8>, shift: int, lo: int, hi: int, pos: int)
    requires
        in_common(a, b, shift, lo, hi),
        lo <= pos <= hi,
        key_at(a, pos).1 <= hi,
    ensures
        key_at(b, pos + shift) == (key_at(a, pos).0, key_at(a, pos).1 + shift),
        pos <= key_at(a, pos).1,
{
    lemma_key_at(a, pos);
    lemma_after_space(a, pos);
    lemma_space_local(a, b, shift, lo, hi, pos);
    let first = after_space(a, pos);
    lemma_byte_local(a, b, shift, lo, hi, first);
    let item = if byte_at(a, first) == Some(COMMA) {
        lemma_after_space(a, first + 1);
        lemma_string_at(a, after_space(a, first + 1));
        lemma_space_local(a, b, shift, lo, hi, first + 1);
        after_space(a, first + 1)
    } else {
        first
    };
    lemma_byte_local(a, b, shift, lo, hi, item);
    if byte_at(a, item) != Some(CLOSE_BRACE) {
        lemma_string_local(a, b, shift, lo, hi, item);
    }
}

pub proof fn lemma_colon_local(a: Seq<u8>, b: Seq<u8>, shift: int, lo: int, hi: int, pos: int)
    requires
        in_common(a, b, shift, lo, hi),
        lo <= pos <= hi,
        after_space(a, pos) < hi,
    ensures
        colon_at(b, pos + shift) == (colon_at(a, pos).0, colon_at(a, pos).1 + shift),
        pos <= colon_at(a, pos).1 <= hi,
{
    lemma_space_local(a, b, shift, lo, hi, pos);
    lemma_byte_local(a, b, shift, lo, hi, after_space(a, pos));
}

/// Reading a value passes the space before it.
proof fn lemma_past_space(text: Seq<u8>, pos: int)
    requires
        0 <= pos <= text.len(),
    ensures
        pos <= after_space(text, pos) <= string_at(text, pos).1 <= text.len(),
        after_space(text, pos) <= number_at(text, pos).1 <= text.len(),
        after_space(text, pos) <= bool_at(text, pos).1 <= text.len(),
        after_space(text, pos) <= after_value(text, pos) <= text.len(),
{
    lemma_after_space(text, pos);
    let first = after_space(text, pos);
    lemma_after_value(text, pos);
    lemma_after_value(text, first);
    lemma_string_at(text, first);
    lemma_number_at(text, first);
    lemma_bool_at(text, pos);
    lemma_bool_at(text, first);
    assert(string_at(text, pos) == string_at(text, first));
    assert(bool_at(text, pos) == bool_at(text, first));
    assert(number_at(text, pos) == number_at(text, first));
    assert(after_value(text, pos) == after_value(text, first));
}

proof fn lemma_number_field_local(
    a: Seq<u8>,
    b: Seq<u8>,
    shift: int,
    lo: int,
    hi: int,
    pos: int,
)
    requires
        in_common(a, b, shift, lo, hi),
        lo <= pos <= hi,
        number_field(a, pos).1 < hi,
    ensures
        number_field(b, pos + shift) == (number_field(a, pos).0, number_field(a, pos).1 + shift),
{
    lemma_past_space(a, pos);
    lemma_past_space(a, number_at(a, pos).1);
    lemma_number_local(a, b, shift, lo, hi, pos);
    if number_at(a, pos).0 is None {
        lemma_value_local(a, b, shift, lo, hi, number_at(a, pos).1);
    }
}

proof fn lemma_string_field_local(
    a: Seq<u8>,
    b: Seq<u8>,
    shift: int,
    lo: int,
    hi: int,
    pos: int,
)
    requires
        in_common(a, b, shift, lo, hi),
        lo <= pos <= hi,
        string_field(a, pos).1 < hi,
    ensures
        string_field(b, pos + shift) == (string_field(a, pos).0, string_field(a, pos).1 + shift),
{
    lemma_past_space(a, pos);
    lemma_past_space(a, string_at(a, pos).1);
    lemma_string_local(a, b, shift, lo, hi, pos);
    if string_at(a, pos).0 is None {
        lemma_value_local(a, b, shift, lo, hi, string_at(a, pos).1);
    }
}

proof fn lemma_bool_field_local(
    a: Seq<u8>,
    b: Seq<u8>,
    shift: int,
    lo: int,
    hi: int,
    pos: int,
)
    requires
        in_common(a, b, shift, lo, hi),
        lo <= pos <= hi,
        bool_field(a, pos).1 < hi,
    ensures
        bool_field(b, pos + shift) == (bool_field(a, pos).0, bool_field(a, pos).1 + shift),
{
    lemma_past_space(a, pos);
    lemma_past_space(a, bool_at(a, pos).1);
    lemma_bool_local(a, b, shift, lo, hi, pos);
    if bool_at(a, pos).0 is None {
        lemma_value_local(a, b, shift, lo, hi, bool_at(a, pos).1);
    }
}

proof fn lemma_mcc_field_local(a: Seq<u8>, b: Seq<u8>, shift: int, lo: int, hi: int, pos: int)
    requires
        in_common(a, b, shift, lo, hi),
        lo <= pos <= hi,
        mcc_field(a, pos).1 < hi,
    ensures
        mcc_field(b, pos + shift) == (mcc_field(a, pos).0, mcc_field(a, pos).1 + shift),
{
    lemma_past_space(a, pos);
    lemma_fields(a, string_at(a, pos).1);
    lemma_string_local(a, b, shift, lo, hi, pos);
    if string_at(a, pos).0 is None {
        lemma_number_field_local(a, b, shift, lo, hi, string_at(a, pos).1);
    }
}

proof fn lemma_known_items_past_space(text: Seq<u8>, pos: int, known: Seq<Seq<u8>>)
    requires
        0 <= pos <= text.len(),
    ensures
        pos <= after_space(text, pos) <= known_items(text, pos, known).1,
{
    lemma_after_space(text, pos);
    let item = after_space(text, pos);
    lemma_string_at(text, item);
    if byte_at(text, item) == Some(COMMA) {
        lemma_known_items(text, item + 1, known);
    } else if byte_at(text, item) == Some(QUOTE) {
        if let (Some(id), next) = string_at(text, item) {
            lemma_known_items(text, next, with_known(known, id));
        }
    }
}

proof fn lemma_known_items_local(
    a: Seq<u8>,
    b: Seq<u8>,
    shift: int,
    lo: int,
    hi: int,
    pos: int,
    known: Seq<Seq<u8>>,
)
    requires
        in_common(a, b, shift, lo, hi),
        lo <= pos <= hi,
        known_items(a, pos, known).1 < hi,
    ensures
        known_items(b, pos + shift, known) == (
            known_items(a, pos, known).0,
            known_items(a, pos, known).1 + shift,
        ),
    decreases hi - pos,
{
    lemma_known_items_past_space(a, pos, known);
    lemma_space_local(a, b, shift, lo, hi, pos);
    let item = after_space(a, pos);
    lemma_byte_local(a, b, shift, lo, hi, item);
    if byte_at(a, item) == Some(CLOSE_BRACKET) {
    } else if byte_at(a, item) == Some(COMMA) {
        lemma_known_items(a, item + 1, known);
        lemma_known_items_local(a, b, shift, lo, hi, item + 1, known);
    } else if byte_at(a, item) == Some(QUOTE) {
        lemma_string_at(a, item);
        if let (Some(id), next) = string_at(a, item) {
            lemma_known_items(a, next, with_known(known, id));
            lemma_string_local(a, b, shift, lo, hi, item);
            lemma_known_items_local(a, b, shift, lo, hi, next, with_known(known, id));
        } else {
            lemma_string_local(a, b, shift, lo, hi, item);
        }
    }
}

proof fn lemma_known_local(
    a: Seq<u8>,
    b: Seq<u8>,
    shift: int,
    lo: int,
    hi: int,
    pos: int,
    known: Seq<Seq<u8>>,
)
    requires
        in_common(a, b, shift, lo, hi),
        lo <= pos <= hi,
        known_at(a, pos, known).1 < hi,
    ensures
        known_at(b, pos + shift, known) == (
            known_at(a, pos, known).0,
            known_at(a, pos, known).1 + shift,
        ),
{
    lemma_past_space(a, pos);
    lemma_after_space(a, pos);
    lemma_past_space(a, after_space(a, pos));
    if byte_at(a, after_space(a, pos)) == Some(OPEN_BRACKET) {
        lemma_known_items(a, after_space(a, pos) + 1, known);
    }
    lemma_space_local(a, b, shift, lo, hi, pos);
    let first = after_space(a, pos);
    lemma_byte_local(a, b, shift, lo, hi, first);
    if byte_at(a, first) == Some(OPEN_BRACKET) {
        lemma_known_items(a, first + 1, known);
        lemma_known_items_local(a, b, shift, lo, hi, first + 1, known);
    } else {
        lemma_after_space(a, pos);
        lemma_value_local(a, b, shift, lo, hi, first);
    }
}

proof fn lemma_transaction_member_local(
    a: Seq<u8>,
    b: Seq<u8>,
    shift: int,
    lo: int,
    hi: int,
    pos: int,
    key: Seq<u8>,
    tx: TxText,
)
    requires
        in_common(a, b, shift, lo, hi),
        lo <= pos <= hi,
        transaction_member(a, pos, key, tx).1 < hi,
    ensures
        transaction_member(b, pos + shift, key, tx) == (
            transaction_member(a, pos, key, tx).0,
            transaction_member(a, pos, key, tx).1 + shift,
        ),
{
    if key == "amount".spec_bytes() || key == "installments".spec_bytes() {
        lemma_number_field_local(a, b, shift, lo, hi, pos);
    } else if key == "requested_at".spec_bytes() {
        lemma_string_field_local(a, b, shift, lo, hi, pos);
    } else {
        lemma_past_space(a, pos);
        lemma_value_local(a, b, shift, lo, hi, pos);
    }
}

proof fn lemma_customer_member_local(
    a: Seq<u8>,
    b: Seq<u8>,
    shift: int,
    lo: int,
    hi: int,
    pos: int,
    key: Seq<u8>,
    tx: TxText,
)
    requires
        in_common(a, b, shift, lo, hi),
        lo <= pos <= hi,
        customer_member(a, pos, key, tx).1 < hi,
    ensures
        customer_member(b, pos + shift, key, tx) == (
            customer_member(a, pos, key, tx).0,
            customer_member(a, pos, key, tx).1 + shift,
        ),
{
    if key == "avg_amount".spec_bytes() || key == "tx_count_24h".spec_bytes() {
        lemma_number_field_local(a, b, shift, lo, hi, pos);
    } else if key == "known_merchants".spec_bytes() {
        lemma_known_local(a, b, shift, lo, hi, pos, tx.known_merchants);
    } else {
        lemma_past_space(a, pos);
        lemma_value_local(a, b, shift, lo, hi, pos);
    }
}

proof fn lemma_merchant_member_local(
    a: Seq<u8>,
    b: Seq<u8>,
    shift: int,
    lo: int,
    hi: int,
    pos: int,
    key: Seq<u8>,
    tx: TxText,
)
    requires
        in_common(a, b, shift, lo, hi),
        lo <= pos <= hi,
        merchant_member(a, pos, key, tx).1 < hi,
    ensures
        merchant_member(b, pos + shift, key, tx) == (
            merchant_member(a, pos, key, tx).0,
            merchant_member(a, pos, key, tx).1 + shift,
        ),
{
    if key == "id".spec_bytes() {
        lemma_string_field_local(a, b, shift, lo, hi, pos);
    } else if key == "mcc".spec_bytes() {
        lemma_mcc_field_local(a, b, shift, lo, hi, pos);
    } else if key == "avg_amount".spec_bytes() {
        lemma_number_field_local(a, b, shift, lo, hi, pos);
    } else {
        lemma_past_space(a, pos);
        lemma_value_local(a, b, shift, lo, hi, pos);
    }
}

proof fn lemma_terminal_member_local(
    a: Seq<u8>,
    b: Seq<u8>,
    shift: int,
    lo: int,
    hi: int,
    pos: int,
    key: Seq<u8>,
    tx: TxText,
)
    requires
        in_common(a, b, shift, lo, hi),
        lo <= pos <= hi,
        terminal_member(a, pos, key, tx).1 < hi,
    ensures
        terminal_member(b, pos + shift, key, tx) == (
            terminal_member(a, pos, key, tx).0,
            terminal_member(a, pos, key, tx).1 + shift,
        ),
{
    if key == "is_online".spec_bytes() || key == "card_present".spec_bytes() {
        lemma_bool_field_local(a, b, shift, lo, hi, pos);
    } else if key == "km_from_home".spec_bytes() {
        lemma_number_field_local(a, b, shift, lo, hi, pos);
    } else {
        lemma_past_space(a, pos);
        lemma_value_local(a, b, shift, lo, hi, pos);
    }
}

proof fn lemma_last_transaction_member_local(
    a: Seq<u8>,
    b: Seq<u8>,
    shift: int,
    lo: int,
    hi: int,
    pos: int,
    key: Seq<u8>,
    tx: TxText,
)
    requires
        in_common(a, b, shift, lo, hi),
        lo <= pos <= hi,
        last_transaction_member(a, pos, key, tx).1 < hi,
    ensures
        last_transaction_member(b, pos + shift, key, tx) == (
            last_transaction_member(a, pos, key, tx).0,
            last_transaction_member(a, pos, key, tx).1 + shift,
        ),
{
    if key == "timestamp".spec_bytes() {
        lemma_string_field_local(a, b, shift, lo, hi, pos);
    } else if key == "km_from_current".spec_bytes() {
        lemma_number_field_local(a, b, shift, lo, hi, pos);
    } else {
        lemma_past_space(a, pos);
        lemma_value_local(a, b, shift, lo, hi, pos);
    }
}

proof fn lemma_member_local(
    section: Section,
    a: Seq<u8>,
    b: Seq<u8>,
    shift: int,
    lo: int,
    hi: int,
    pos: int,
    key: Seq<u8>,
    tx: TxText,
)
    requires
        in_common(a, b, shift, lo, hi),
        lo <= pos <= hi,
        member(section, a, pos, key, tx).1 < hi,
    ensures
        member(section, b, pos + shift, key, tx) == (
            member(section, a, pos, key, tx).0,
            member(section, a, pos, key, tx).1 + shift,
        ),
{
    match section {
        Section::Transaction => lemma_transaction_member_local(a, b, shift, lo, hi, pos, key, tx),
        Section::Customer => lemma_customer_member_local(a, b, shift, lo, hi, pos, key, tx),
        Section::Merchant => lemma_merchant_member_local(a, b, shift, lo, hi, pos, key, tx),
        Section::Terminal => lemma_terminal_member_local(a, b, shift, lo, hi, pos, key, tx),
        Section::LastTransaction => lemma_last_transaction_member_local(
            a,
            b,
            shift,
            lo,
            hi,
            pos,
            key,
            tx,
        ),
    }
}

/// What goes on at the end mark goes past it.
proof fn lemma_members_past_mark(
    section: Section,
    a: Seq<u8>,
    b: Seq<u8>,
    shift: int,
    lo: int,
    hi: int,
    pos: int,
    tx: TxText,
)
    requires
        in_common(a, b, shift, lo, hi),
        lo <= pos <= a.len(),
        members(section, a, pos, tx).1 <= hi,
    ensures
        pos < hi,
{
    lemma_members(section, a, pos, tx);
    lemma_key_at(a, pos);
    if pos == hi {
        lemma_space_local(a, b, shift, lo, hi, pos);
        assert(key_at(a, pos).1 > hi);
        if let (Some(key), next) = key_at(a, pos) {
            lemma_colon_at(a, next);
            if let (true, value) = colon_at(a, next) {
                lemma_member(section, a, value, key, tx);
                let (tx2, rest) = member(section, a, value, key, tx);
                lemma_members(section, a, rest, tx2);
            }
        }
    }
}

/// A key ends with its quote.
proof fn lemma_key_ends(text: Seq<u8>, pos: int)
    requires
        0 <= pos <= text.len(),
        key_at(text, pos).0 is Some,
    ensures
        text[key_at(text, pos).1 - 1] == QUOTE,
        0 < key_at(text, pos).1,
{
    lemma_after_space(text, pos);
    let first = after_space(text, pos);
    let item = if byte_at(text, first) == Some(COMMA) {
        lemma_after_space(text, first + 1);
        after_space(text, first + 1)
    } else {
        first
    };
    lemma_after_space(text, item);
    lemma_closing_quote(text, after_space(text, item) + 1);
}

proof fn lemma_members_local(
    section: Section,
    a: Seq<u8>,
    b: Seq<u8>,
    shift: int,
    lo: int,
    hi: int,
    pos: int,
    tx: TxText,
)
    requires
        in_common(a, b, shift, lo, hi),
        lo <= pos <= hi,
        members(section, a, pos, tx).1 <= hi,
        members(section, a, pos, tx).1 == hi ==> a[hi - 1] == CLOSE_BRACE,
    ensures
        members(section, b, pos + shift, tx) == (
            members(section, a, pos, tx).0,
            members(section, a, pos, tx).1 + shift,
        ),
    decreases hi - pos,
{
    lemma_key_at(a, pos);
    if let (Some(key), next) = key_at(a, pos) {
        lemma_colon_at(a, next);
        lemma_key_ends(a, pos);
        lemma_after_space(a, next);
        if let (true, value) = colon_at(a, next) {
            lemma_member(section, a, value, key, tx);
            let (tx2, rest) = member(section, a, value, key, tx);
            lemma_members(section, a, rest, tx2);
            lemma_members_past_mark(section, a, b, shift, lo, hi, rest, tx2);
            lemma_key_local(a, b, shift, lo, hi, pos);
            lemma_colon_local(a, b, shift, lo, hi, next);
            lemma_member_local(section, a, b, shift, lo, hi, value, key, tx);
            lemma_members_local(section, a, b, shift, lo, hi, rest, tx2);
        } else {
            if after_space(a, next) == hi {
                assert(a[hi - 1] == QUOTE || is_json_space(a[hi - 1]));
            }
            lemma_key_local(a, b, shift, lo, hi, pos);
            lemma_colon_local(a, b, shift, lo, hi, next);
        }
    } else {
        lemma_key_local(a, b, shift, lo, hi, pos);
    }
}

/// A section reads the same wherever it stands, as long as it ends before the comma or the brace
/// behind it.
pub proof fn law_section_local(
    section: Section,
    a: Seq<u8>,
    b: Seq<u8>,
    shift: int,
    lo: int,
    hi: int,
    pos: int,
    tx: TxText,
)
    requires
        in_common(a, b, shift, lo, hi),
        lo <= pos,
        after_space(a, pos) < hi,
        section_at(section, a, pos, tx).1 <= hi,
        a[after_space(a, pos)] == OPEN_BRACE ==> a[section_at(section, a, pos, tx).1 - 1]
            == CLOSE_BRACE,
    ensures
        section_at(section, b, pos + shift, tx) == (
            section_at(section, a, pos, tx).0,
            section_at(section, a, pos, tx).1 + shift,
        ),
{
    lemma_after_space(a, pos);
    lemma_space_local(a, b, shift, lo, hi, pos);
    let first = after_space(a, pos);
    lemma_byte_local(a, b, shift, lo, hi, first);
    lemma_words();
    if a[first] == OPEN_BRACE && null_at(a, first).0 {
        reveal_strlit("null");
        assert(a.subrange(first, first + 4)[0] == a[first]);
    }
    lemma_null_local(a, b, shift, lo, hi, first);
    if section is LastTransaction && null_at(a, first).0 {
    } else if byte_at(a, first) == Some(OPEN_BRACE) {
        lemma_members(section, a, first + 1, tx);
        lemma_members_local(section, a, b, shift, lo, hi, first + 1, tx);
    } else {
        lemma_value_local(a, b, shift, lo, hi, first);
    }
}

} // verus!
