//! A lenient cursor over JSON text.
//!
//! Nothing is rejected for being malformed JSON: every operation says where the
//! cursor stands afterwards, on any bytes whatever. A spec function of this module takes
//! the text and a position and gives back what is read there and the next position.
use vstd::prelude::*;
use vstd::string::StringSliceAdditionalSpecFns;

use crate::bytes::{
    bytes_eq, digit, is_digit, occurs, occurs_at, BACKSLASH, CLOSE_BRACE, CLOSE_BRACKET, COLON,
    COMMA, CR, DOT, LF, LOWER_E, LOWER_F, LOWER_N, LOWER_T, MINUS, OPEN_BRACE, OPEN_BRACKET, PLUS,
    QUOTE, SPACE, TAB, UPPER_E,
};

verus! {

/// The byte at `pos`, if the text goes that far.
pub open spec fn byte_at(text: Seq<u8>, pos: int) -> Option<u8> {
    if 0 <= pos < text.len() {
        Some(text[pos])
    } else {
        None
    }
}

pub open spec fn is_json_space(b: u8) -> bool {
    b == SPACE || b == LF || b == CR || b == TAB
}

/// The first position from `pos` on that holds no white space.
pub open spec fn after_space(text: Seq<u8>, pos: int) -> int
    decreases text.len() - pos,
{
    if 0 <= pos < text.len() && is_json_space(text[pos]) {
        after_space(text, pos + 1)
    } else {
        pos
    }
}

/// The first position from `pos` on that holds no digit.
pub open spec fn after_digits(text: Seq<u8>, pos: int) -> int
    decreases text.len() - pos,
{
    if 0 <= pos < text.len() && is_digit(text[pos]) {
        after_digits(text, pos + 1)
    } else {
        pos
    }
}

/// The position of the quote that ends the string whose contents start at `pos`.
/// A backslash takes the byte behind it along.
pub open spec fn closing_quote(text: Seq<u8>, pos: int) -> Option<int>
    decreases text.len() + 2 - pos,
{
    if !(0 <= pos < text.len()) {
        None
    } else if text[pos] == BACKSLASH {
        closing_quote(text, pos + 2)
    } else if text[pos] == QUOTE {
        Some(pos)
    } else {
        closing_quote(text, pos + 1)
    }
}

/// The contents of the string at `pos`, escapes left as they are. Where no string
/// starts only white space is passed; a string that is never closed takes all the text.
pub open spec fn string_at(text: Seq<u8>, pos: int) -> (Option<Seq<u8>>, int) {
    let open = after_space(text, pos);
    if byte_at(text, open) != Some(QUOTE) {
        (None, open)
    } else {
        match closing_quote(text, open + 1) {
            Some(close) => (Some(text.subrange(open + 1, close)), close + 1),
            None => (None, text.len() as int),
        }
    }
}

pub open spec fn is_sign(b: Option<u8>) -> bool {
    b == Some(MINUS) || b == Some(PLUS)
}

pub open spec fn is_exponent_mark(b: Option<u8>) -> bool {
    b == Some(LOWER_E) || b == Some(UPPER_E)
}

/// The position behind an optional sign.
pub open spec fn after_sign(text: Seq<u8>, pos: int) -> int {
    if is_sign(byte_at(text, pos)) {
        pos + 1
    } else {
        pos
    }
}

/// The position behind a sign, digits, a dot and digits, each of them optional.
pub open spec fn after_mantissa(text: Seq<u8>, pos: int) -> int {
    let whole = after_digits(text, after_sign(text, pos));
    if byte_at(text, whole) == Some(DOT) {
        after_digits(text, whole + 1)
    } else {
        whole
    }
}

/// The position behind everything that looks like a number from `pos` on.
pub open spec fn after_number(text: Seq<u8>, pos: int) -> int {
    let mark = after_mantissa(text, pos);
    if is_exponent_mark(byte_at(text, mark)) {
        after_digits(text, after_sign(text, mark + 1))
    } else {
        mark
    }
}

/// A decimal literal starts at `pos` and goes as far as the text looks like a number:
/// an optional sign, at least one digit before or behind an optional dot, and an
/// exponent, if there is one, with at least one digit of its own.
pub open spec fn decimal_at(text: Seq<u8>, pos: int) -> bool {
    let first = after_sign(text, pos);
    let whole = after_digits(text, first);
    let mark = after_mantissa(text, pos);
    let exponent = after_sign(text, mark + 1);
    &&& whole > first || mark > whole + 1
    &&& is_exponent_mark(byte_at(text, mark)) ==> after_digits(text, exponent) > exponent
}

/// The whole text is one decimal literal.
pub open spec fn is_decimal(text: Seq<u8>) -> bool {
    decimal_at(text, 0) && after_number(text, 0) == text.len()
}

/// The decimal literal at `pos`, with or without quotes around it. What looks like a
/// number is passed even where it is no literal.
pub open spec fn number_at(text: Seq<u8>, pos: int) -> (Option<Seq<u8>>, int) {
    let open = after_space(text, pos);
    let quoted = byte_at(text, open) == Some(QUOTE);
    let start = if quoted {
        open + 1
    } else {
        open
    };
    let end = after_number(text, start);
    let next = if quoted && byte_at(text, end) == Some(QUOTE) {
        end + 1
    } else {
        end
    };
    (
        if decimal_at(text, start) {
            Some(text.subrange(start, end))
        } else {
            None
        },
        next,
    )
}

/// The truth value at `pos`: a bare word, or one of a few quoted spellings.
pub open spec fn bool_at(text: Seq<u8>, pos: int) -> (Option<bool>, int) {
    let word = after_space(text, pos);
    if occurs_at(text, "true".spec_bytes(), word) {
        (Some(true), word + 4)
    } else if occurs_at(text, "false".spec_bytes(), word) {
        (Some(false), word + 5)
    } else {
        match string_at(text, pos) {
            (Some(s), next) => (quoted_bool(s), next),
            (None, next) => (None, next),
        }
    }
}

/// What a quoted spelling of a truth value stands for.
pub open spec fn quoted_bool(s: Seq<u8>) -> Option<bool> {
    if s == "true".spec_bytes() || s == "1".spec_bytes() || s == "yes".spec_bytes() {
        Some(true)
    } else if s == "false".spec_bytes() || s == "0".spec_bytes() || s == "no".spec_bytes() {
        Some(false)
    } else {
        None
    }
}

/// Whether `null` stands at `pos`.
pub open spec fn null_at(text: Seq<u8>, pos: int) -> (bool, int) {
    let word = after_space(text, pos);
    if occurs_at(text, "null".spec_bytes(), word) {
        (true, word + 4)
    } else {
        (false, word)
    }
}

/// The position at which `depth` open brackets have been closed, or the end of the
/// text. Brackets of both kinds count alike, and those inside strings do not count.
pub open spec fn after_nesting(text: Seq<u8>, pos: int, depth: nat) -> int
    decreases text.len() - pos,
{
    if !(0 <= pos < text.len()) || depth == 0 {
        pos
    } else if text[pos] == QUOTE {
        proof {
            lemma_closing_quote(text, pos + 1);
        }
        match closing_quote(text, pos + 1) {
            Some(close) => after_nesting(text, close + 1, depth),
            None => text.len() as int,
        }
    } else if text[pos] == OPEN_BRACE || text[pos] == OPEN_BRACKET {
        after_nesting(text, pos + 1, depth + 1)
    } else if text[pos] == CLOSE_BRACE || text[pos] == CLOSE_BRACKET {
        after_nesting(text, pos + 1, (depth - 1) as nat)
    } else {
        after_nesting(text, pos + 1, depth)
    }
}

/// The position behind the value at `pos`.
pub open spec fn after_value(text: Seq<u8>, pos: int) -> int {
    let first = after_space(text, pos);
    match byte_at(text, first) {
        Some(b) => {
            if b == QUOTE {
                string_at(text, first).1
            } else if b == OPEN_BRACE || b == OPEN_BRACKET {
                after_nesting(text, first + 1, 1)
            } else if b == LOWER_T || b == LOWER_F {
                bool_at(text, first).1
            } else if b == LOWER_N {
                null_at(text, first).1
            } else {
                number_at(text, first).1
            }
        },
        None => first,
    }
}

/// The next key of the object whose members are being read, or none at its end or
/// where no key stands.
pub open spec fn key_at(text: Seq<u8>, pos: int) -> (Option<Seq<u8>>, int) {
    let first = after_space(text, pos);
    let item = if byte_at(text, first) == Some(COMMA) {
        after_space(text, first + 1)
    } else {
        first
    };
    if byte_at(text, item) == Some(CLOSE_BRACE) {
        (None, item + 1)
    } else {
        string_at(text, item)
    }
}

/// Whether a colon stands at `pos`.
pub open spec fn colon_at(text: Seq<u8>, pos: int) -> (bool, int) {
    let first = after_space(text, pos);
    if byte_at(text, first) == Some(COLON) {
        (true, first + 1)
    } else {
        (false, first)
    }
}

pub proof fn lemma_after_space(text: Seq<u8>, pos: int)
    requires
        0 <= pos <= text.len(),
    ensures
        pos <= after_space(text, pos) <= text.len(),
        after_space(text, after_space(text, pos)) == after_space(text, pos),
        forall|k: int| pos <= k < after_space(text, pos) ==> is_json_space(text[k]),
        byte_at(text, after_space(text, pos)) matches Some(b) ==> !is_json_space(b),
    decreases text.len() - pos,
{
    if pos < text.len() && is_json_space(text[pos]) {
        lemma_after_space(text, pos + 1);
    }
}

pub proof fn lemma_after_digits(text: Seq<u8>, pos: int)
    requires
        0 <= pos <= text.len(),
    ensures
        pos <= after_digits(text, pos) <= text.len(),
        forall|k: int| pos <= k < after_digits(text, pos) ==> is_digit(text[k]),
        byte_at(text, after_digits(text, pos)) matches Some(b) ==> !is_digit(b),
    decreases text.len() - pos,
{
    if pos < text.len() && is_digit(text[pos]) {
        lemma_after_digits(text, pos + 1);
    }
}

pub proof fn lemma_closing_quote(text: Seq<u8>, pos: int)
    requires
        0 <= pos <= text.len(),
    ensures
        closing_quote(text, pos) matches Some(close) ==> pos <= close < text.len()
            && text[close] == QUOTE,
    decreases text.len() - pos,
{
    if pos < text.len() {
        if text[pos] == BACKSLASH {
            if pos + 2 <= text.len() {
                lemma_closing_quote(text, pos + 2);
            }
        } else if text[pos] != QUOTE {
            lemma_closing_quote(text, pos + 1);
        }
    }
}

/// A string is read within the text, and past both of its quotes.
pub proof fn lemma_string_at(text: Seq<u8>, pos: int)
    requires
        0 <= pos <= text.len(),
    ensures
        pos <= string_at(text, pos).1 <= text.len(),
        string_at(text, pos).0 is Some ==> pos + 2 <= string_at(text, pos).1,
{
    lemma_after_space(text, pos);
    let open = after_space(text, pos);
    if byte_at(text, open) == Some(QUOTE) {
        lemma_closing_quote(text, open + 1);
    }
}

pub proof fn lemma_after_number(text: Seq<u8>, pos: int)
    requires
        0 <= pos <= text.len(),
    ensures
        pos <= after_mantissa(text, pos) <= after_number(text, pos) <= text.len(),
{
    lemma_after_digits(text, after_sign(text, pos));
    let whole = after_digits(text, after_sign(text, pos));
    if byte_at(text, whole) == Some(DOT) {
        lemma_after_digits(text, whole + 1);
    }
    let mark = after_mantissa(text, pos);
    if is_exponent_mark(byte_at(text, mark)) {
        lemma_after_digits(text, after_sign(text, mark + 1));
    }
}

pub proof fn lemma_number_at(text: Seq<u8>, pos: int)
    requires
        0 <= pos <= text.len(),
    ensures
        pos <= number_at(text, pos).1 <= text.len(),
{
    lemma_after_space(text, pos);
    let open = after_space(text, pos);
    let start = if byte_at(text, open) == Some(QUOTE) {
        open + 1
    } else {
        open
    };
    lemma_after_number(text, start);
}

pub proof fn lemma_bool_at(text: Seq<u8>, pos: int)
    requires
        0 <= pos <= text.len(),
    ensures
        pos <= bool_at(text, pos).1 <= text.len(),
{
    reveal_strlit("true");
    reveal_strlit("false");
    assert("true".is_ascii());
    assert("false".is_ascii());
    lemma_after_space(text, pos);
    lemma_string_at(text, pos);
}

pub proof fn lemma_null_at(text: Seq<u8>, pos: int)
    requires
        0 <= pos <= text.len(),
    ensures
        pos <= null_at(text, pos).1 <= text.len(),
{
    reveal_strlit("null");
    assert("null".is_ascii());
    lemma_after_space(text, pos);
}

pub proof fn lemma_after_nesting(text: Seq<u8>, pos: int, depth: nat)
    requires
        0 <= pos <= text.len(),
    ensures
        pos <= after_nesting(text, pos, depth) <= text.len(),
    decreases text.len() - pos,
{
    if pos < text.len() && depth != 0 {
        if text[pos] == QUOTE {
            lemma_closing_quote(text, pos + 1);
            if let Some(close) = closing_quote(text, pos + 1) {
                lemma_after_nesting(text, close + 1, depth);
            }
        } else if text[pos] == OPEN_BRACE || text[pos] == OPEN_BRACKET {
            lemma_after_nesting(text, pos + 1, depth + 1);
        } else if text[pos] == CLOSE_BRACE || text[pos] == CLOSE_BRACKET {
            lemma_after_nesting(text, pos + 1, (depth - 1) as nat);
        } else {
            lemma_after_nesting(text, pos + 1, depth);
        }
    }
}

pub proof fn lemma_after_value(text: Seq<u8>, pos: int)
    requires
        0 <= pos <= text.len(),
    ensures
        pos <= after_value(text, pos) <= text.len(),
{
    lemma_after_space(text, pos);
    let first = after_space(text, pos);
    lemma_string_at(text, first);
    lemma_bool_at(text, first);
    lemma_null_at(text, first);
    lemma_number_at(text, first);
    if first < text.len() {
        lemma_after_nesting(text, first + 1, 1);
    }
}

/// A key takes at least its two quotes.
pub proof fn lemma_key_at(text: Seq<u8>, pos: int)
    requires
        0 <= pos <= text.len(),
    ensures
        pos <= key_at(text, pos).1 <= text.len(),
        key_at(text, pos).0 is Some ==> pos < key_at(text, pos).1,
{
    lemma_after_space(text, pos);
    let first = after_space(text, pos);
    if byte_at(text, first) == Some(COMMA) {
        lemma_after_space(text, first + 1);
        lemma_string_at(text, after_space(text, first + 1));
    } else {
        lemma_string_at(text, first);
    }
}

pub proof fn lemma_colon_at(text: Seq<u8>, pos: int)
    requires
        0 <= pos <= text.len(),
    ensures
        pos <= colon_at(text, pos).1 <= text.len(),
{
    lemma_after_space(text, pos);
}

/// A run of digits that ends inside a part of the text ends there in the part as well.
proof fn lemma_after_digits_part(text: Seq<u8>, start: int, end: int, pos: int)
    requires
        0 <= start <= pos <= after_digits(text, pos) <= end <= text.len(),
    ensures
        after_digits(text.subrange(start, end), pos - start) == after_digits(text, pos) - start,
    decreases text.len() - pos,
{
    let part = text.subrange(start, end);
    if pos < text.len() && is_digit(text[pos]) {
        lemma_after_digits(text, pos + 1);
        assert(part[pos - start] == text[pos]);
        lemma_after_digits_part(text, start, end, pos + 1);
    } else if pos < end {
        assert(part[pos - start] == text[pos]);
    }
}

/// What is read as a number is a decimal literal from its first byte to its last.
pub proof fn law_number_is_decimal(text: Seq<u8>, pos: int)
    requires
        0 <= pos <= text.len(),
    ensures
        number_at(text, pos).0 matches Some(literal) ==> is_decimal(literal),
{
    if let Some(literal) = number_at(text, pos).0 {
        lemma_after_space(text, pos);
        let open = after_space(text, pos);
        let start = if byte_at(text, open) == Some(QUOTE) {
            open + 1
        } else {
            open
        };
        let end = after_number(text, start);
        lemma_after_number(text, start);
        assert(literal == text.subrange(start, end));
        assert forall|k: int| 0 <= k < literal.len() implies literal[k] == text[start + k] by {}
        let first = after_sign(text, start);
        let whole = after_digits(text, first);
        let mark = after_mantissa(text, start);
        lemma_after_digits(text, first);
        if byte_at(text, whole) == Some(DOT) {
            lemma_after_digits(text, whole + 1);
        }
        if is_exponent_mark(byte_at(text, mark)) {
            lemma_after_digits(text, after_sign(text, mark + 1));
        }
        assert(first <= whole <= mark <= end);
        assert(after_sign(literal, 0) == first - start);
        lemma_after_digits_part(text, start, end, first);
        assert(after_digits(literal, after_sign(literal, 0)) == whole - start);
        if byte_at(text, whole) == Some(DOT) {
            lemma_after_digits_part(text, start, end, whole + 1);
        }
        assert(after_mantissa(literal, 0) == mark - start);
        if is_exponent_mark(byte_at(text, mark)) {
            let exponent = after_sign(text, mark + 1);
            assert(exponent <= after_digits(text, exponent) == end);
            assert(after_sign(literal, mark + 1 - start) == exponent - start);
            lemma_after_digits_part(text, start, end, exponent);
        }
    }
}

/// A position in a JSON text.
pub struct Parser<'a> {
    pub body: &'a [u8],
    pub pos: usize,
}

impl<'a> Parser<'a> {
    /// The cursor stands in the text or at its end.
    pub open spec fn wf(&self) -> bool {
        self.pos <= self.body@.len()
    }

    /// The cursor over the same text at another position.
    pub open spec fn moved_to(&self, text: Seq<u8>, pos: int) -> bool {
        self.body@ == text && self.pos == pos && self.wf()
    }

    /// A cursor at the start of `body`.
    pub fn new(body: &'a [u8]) -> (r: Self)
        ensures
            r.moved_to(body@, 0),
    {
        Parser { body, pos: 0 }
    }

    /// The byte under the cursor.
    pub fn peek(&self) -> (r: Option<u8>)
        ensures
            r == byte_at(self.body@, self.pos as int),
    {
        if self.pos < self.body.len() {
            Some(self.body[self.pos])
        } else {
            None
        }
    }

    /// Whether `b` is the byte under the cursor.
    pub fn at(&self, b: u8) -> (r: bool)
        ensures
            r == (byte_at(self.body@, self.pos as int) == Some(b)),
    {
        self.pos < self.body.len() && self.body[self.pos] == b
    }

    /// Passes `n` bytes.
    pub fn advance(&mut self, n: usize)
        requires
            old(self).pos + n <= old(self).body@.len(),
        ensures
            final(self).moved_to(old(self).body@, old(self).pos + n),
    {
        let len: usize = self.body.len();
        assert(self.pos + n <= len);
        self.pos += n;
    }

    /// Passes white space.
    pub fn skip_ws(&mut self)
        requires
            old(self).wf(),
        ensures
            final(self).moved_to(
                old(self).body@,
                after_space(old(self).body@, old(self).pos as int),
            ),
    {
        let ghost text = self.body@;
        let ghost start = self.pos as int;
        while self.pos < self.body.len() && (self.body[self.pos] == SPACE || self.body[self.pos]
            == LF || self.body[self.pos] == CR || self.body[self.pos] == TAB)
            invariant
                self.wf(),
                self.body@ == text,
                after_space(text, start) == after_space(text, self.pos as int),
            decreases self.body@.len() - self.pos,
        {
            self.pos += 1;
        }
    }

    /// Passes digits.
    fn skip_digits(&mut self)
        requires
            old(self).wf(),
        ensures
            final(self).moved_to(
                old(self).body@,
                after_digits(old(self).body@, old(self).pos as int),
            ),
    {
        let ghost text = self.body@;
        let ghost start = self.pos as int;
        while self.pos < self.body.len() && digit(self.body[self.pos])
            invariant
                self.wf(),
                self.body@ == text,
                after_digits(text, start) == after_digits(text, self.pos as int),
            decreases self.body@.len() - self.pos,
        {
            self.pos += 1;
        }
    }

    /// Passes one sign.
    fn skip_sign(&mut self)
        requires
            old(self).wf(),
        ensures
            final(self).moved_to(
                old(self).body@,
                after_sign(old(self).body@, old(self).pos as int),
            ),
    {
        if self.at(MINUS) || self.at(PLUS) {
            self.advance(1);
        }
    }

    /// The next key of an object.
    pub fn next_key(&mut self) -> (r: Option<&'a [u8]>)
        requires
            old(self).wf(),
        ensures
            slice_view(r) == key_at(old(self).body@, old(self).pos as int).0,
            final(self).moved_to(
                old(self).body@,
                key_at(old(self).body@, old(self).pos as int).1,
            ),
    {
        self.skip_ws();
        if self.at(COMMA) {
            self.advance(1);
            self.skip_ws();
        }
        if self.at(CLOSE_BRACE) {
            self.advance(1);
            return None;
        }
        self.parse_string_slice()
    }

    /// Passes a colon and says whether it was there.
    pub fn expect_colon(&mut self) -> (r: bool)
        requires
            old(self).wf(),
        ensures
            r == colon_at(old(self).body@, old(self).pos as int).0,
            final(self).moved_to(
                old(self).body@,
                colon_at(old(self).body@, old(self).pos as int).1,
            ),
    {
        self.skip_ws();
        if self.at(COLON) {
            self.advance(1);
            true
        } else {
            false
        }
    }

    /// The contents of a string, escapes left as they are.
    pub fn parse_string_slice(&mut self) -> (r: Option<&'a [u8]>)
        requires
            old(self).wf(),
        ensures
            slice_view(r) == string_at(old(self).body@, old(self).pos as int).0,
            final(self).moved_to(
                old(self).body@,
                string_at(old(self).body@, old(self).pos as int).1,
            ),
    {
        self.skip_ws();
        if !self.at(QUOTE) {
            return None;
        }
        self.advance(1);
        let ghost text = self.body@;
        let start: usize = self.pos;
        while self.pos < self.body.len()
            invariant
                self.wf(),
                self.body@ == text,
                start <= self.pos,
                closing_quote(text, start as int) == closing_quote(text, self.pos as int),
                start == after_space(text, old(self).pos as int) + 1,
                byte_at(text, start - 1) == Some(QUOTE),
                text == old(self).body@,
            decreases self.body@.len() - self.pos,
        {
            let b: u8 = self.body[self.pos];
            if b == BACKSLASH {
                if self.body.len() - self.pos > 2 {
                    self.advance(2);
                } else {
                    assert(closing_quote(text, self.pos + 2) is None);
                    self.pos = self.body.len();
                }
            } else if b == QUOTE {
                let s = &self.body[start..self.pos];
                self.advance(1);
                return Some(s);
            } else {
                self.advance(1);
            }
        }
        None
    }

    /// A decimal literal, with or without quotes around it.
    pub fn parse_number(&mut self) -> (r: Option<&'a [u8]>)
        requires
            old(self).wf(),
        ensures
            slice_view(r) == number_at(old(self).body@, old(self).pos as int).0,
            final(self).moved_to(
                old(self).body@,
                number_at(old(self).body@, old(self).pos as int).1,
            ),
            slice_view(r) matches Some(literal) ==> is_decimal(literal),
    {
        proof {
            law_number_is_decimal(self.body@, self.pos as int);
        }
        self.skip_ws();
        let quoted: bool = self.at(QUOTE);
        if quoted {
            self.advance(1);
        }
        let start: usize = self.pos;
        proof {
            lemma_after_number(self.body@, start as int);
        }
        self.skip_sign();
        let first: usize = self.pos;
        self.skip_digits();
        let mut digits: bool = self.pos > first;
        if self.at(DOT) {
            self.advance(1);
            let fraction: usize = self.pos;
            self.skip_digits();
            if self.pos > fraction {
                digits = true;
            }
        }
        let mut exponent_ok: bool = true;
        if self.at(LOWER_E) || self.at(UPPER_E) {
            self.advance(1);
            self.skip_sign();
            let exponent: usize = self.pos;
            self.skip_digits();
            exponent_ok = self.pos > exponent;
        }
        let end: usize = self.pos;
        if quoted && self.at(QUOTE) {
            self.advance(1);
        }
        if digits && exponent_ok {
            Some(&self.body[start..end])
        } else {
            None
        }
    }

    /// A truth value.
    pub fn parse_bool(&mut self) -> (r: Option<bool>)
        requires
            old(self).wf(),
        ensures
            r == bool_at(old(self).body@, old(self).pos as int).0,
            final(self).moved_to(
                old(self).body@,
                bool_at(old(self).body@, old(self).pos as int).1,
            ),
    {
        proof {
            lemma_after_space(self.body@, self.pos as int);
            reveal_strlit("true");
            reveal_strlit("false");
            assert("true".is_ascii());
            assert("false".is_ascii());
        }
        self.skip_ws();
        if occurs(self.body, "true".as_bytes(), self.pos) {
            self.advance(4);
            return Some(true);
        }
        if occurs(self.body, "false".as_bytes(), self.pos) {
            self.advance(5);
            return Some(false);
        }
        match self.parse_string_slice() {
            Some(s) => {
                if bytes_eq(s, "true".as_bytes()) || bytes_eq(s, "1".as_bytes()) || bytes_eq(
                    s,
                    "yes".as_bytes(),
                ) {
                    Some(true)
                } else if bytes_eq(s, "false".as_bytes()) || bytes_eq(s, "0".as_bytes())
                    || bytes_eq(s, "no".as_bytes()) {
                    Some(false)
                } else {
                    None
                }
            },
            None => None,
        }
    }

    /// Passes `null` and says whether it was there.
    pub fn parse_null(&mut self) -> (r: bool)
        requires
            old(self).wf(),
        ensures
            r == null_at(old(self).body@, old(self).pos as int).0,
            final(self).moved_to(
                old(self).body@,
                null_at(old(self).body@, old(self).pos as int).1,
            ),
    {
        proof {
            reveal_strlit("null");
            assert("null".is_ascii());
        }
        self.skip_ws();
        if occurs(self.body, "null".as_bytes(), self.pos) {
            self.advance(4);
            return true;
        }
        false
    }

    /// Passes a value of any kind.
    pub fn skip_value(&mut self)
        requires
            old(self).wf(),
        ensures
            final(self).moved_to(
                old(self).body@,
                after_value(old(self).body@, old(self).pos as int),
            ),
    {
        self.skip_ws();
        match self.peek() {
            Some(b) => {
                if b == QUOTE {
                    let _ = self.parse_string_slice();
                } else if b == OPEN_BRACE {
                    self.skip_object();
                } else if b == OPEN_BRACKET {
                    self.skip_array();
                } else if b == LOWER_T || b == LOWER_F {
                    let _ = self.parse_bool();
                } else if b == LOWER_N {
                    let _ = self.parse_null();
                } else {
                    let _ = self.parse_number();
                }
            },
            None => {},
        }
    }

    /// Passes the object under the cursor, if there is one.
    pub fn skip_object(&mut self)
        requires
            old(self).wf(),
        ensures
            final(self).moved_to(
                old(self).body@,
                after_bracket(old(self).body@, old(self).pos as int, OPEN_BRACE),
            ),
    {
        if !self.at(OPEN_BRACE) {
            return ;
        }
        self.advance(1);
        self.skip_nesting();
    }

    /// Passes the array under the cursor, if there is one.
    pub fn skip_array(&mut self)
        requires
            old(self).wf(),
        ensures
            final(self).moved_to(
                old(self).body@,
                after_bracket(old(self).body@, old(self).pos as int, OPEN_BRACKET),
            ),
    {
        if !self.at(OPEN_BRACKET) {
            return ;
        }
        self.advance(1);
        self.skip_nesting();
    }

    /// Passes everything up to and with the bracket that closes the one just passed.
    fn skip_nesting(&mut self)
        requires
            old(self).wf(),
            old(self).pos > 0,
        ensures
            final(self).moved_to(
                old(self).body@,
                after_nesting(old(self).body@, old(self).pos as int, 1),
            ),
    {
        let ghost text = self.body@;
        let ghost start = self.pos as int;
        let mut depth: usize = 1;
        while self.pos < self.body.len() && depth > 0
            invariant
                self.wf(),
                self.body@ == text,
                depth <= self.pos,
                after_nesting(text, start, 1) == after_nesting(
                    text,
                    self.pos as int,
                    depth as nat,
                ),
            decreases self.body@.len() - self.pos,
        {
            let b: u8 = self.body[self.pos];
            if b == QUOTE {
                proof {
                    lemma_string_at(text, self.pos as int);
                    lemma_closing_quote(text, self.pos + 1);
                }
                let _ = self.parse_string_slice();
            } else if b == OPEN_BRACE || b == OPEN_BRACKET {
                self.advance(1);
                depth += 1;
            } else if b == CLOSE_BRACE || b == CLOSE_BRACKET {
                self.advance(1);
                depth -= 1;
            } else {
                self.advance(1);
            }
        }
    }
}

/// The contents of an optional slice.
pub open spec fn slice_view(s: Option<&[u8]>) -> Option<Seq<u8>> {
    match s {
        Some(s) => Some(s@),
        None => None,
    }
}

/// The position behind the bracketed value that starts at `pos` with `open`, or `pos`.
pub open spec fn after_bracket(text: Seq<u8>, pos: int, open: u8) -> int {
    if byte_at(text, pos) == Some(open) {
        after_nesting(text, pos + 1, 1)
    } else {
        pos
    }
}

} // verus!
