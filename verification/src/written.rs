//! Values as they are written in a body, and that each is read as it is written.
use vstd::prelude::*;
use vstd::string::StringSliceAdditionalSpecFns;

use crate::bytes::occurs_at;
use crate::grammar::{json_end, law_json_is_passed};
use crate::json::{
    after_digits, after_mantissa, after_number, after_sign, after_space, after_value, byte_at,
    closing_quote, decimal_at, is_decimal, is_exponent_mark, lemma_after_digits, quoted_bool,
    string_at,
};
use crate::locality::{in_common, lemma_value_local};
use crate::parser::{bool_field, known_items, number_field, with_known};

verus! {

/// `piece` stands in the text at `pos`.
pub open spec fn stands(text: Seq<u8>, pos: int, piece: Seq<u8>) -> bool {
    &&& 0 <= pos
    &&& pos + piece.len() <= text.len()
    &&& forall|k: int| 0 <= k < piece.len() ==> text[pos + k] == #[trigger] piece[k]
}

/// Where two pieces stand together, each stands for itself.
pub proof fn lemma_split(text: Seq<u8>, pos: int, a: Seq<u8>, b: Seq<u8>)
    requires
        stands(text, pos, a + b),
    ensures
        stands(text, pos, a),
        stands(text, pos + a.len(), b),
{
    let both = a + b;
    assert forall|k: int| 0 <= k < a.len() implies text[pos + k] == #[trigger] a[k] by {
        assert(both[k] == a[k]);
    }
    assert forall|k: int| 0 <= k < b.len() implies text[pos + a.len() + k] == #[trigger] b[k] by {
        assert(both[a.len() + k] == b[k]);
    }
}

/// Space, tab, line feed or carriage return.
pub open spec fn is_gap_byte(b: u8) -> bool {
    b == 0x20 || b == 0x09 || b == 0x0a || b == 0x0d
}

/// White space, or nothing.
pub open spec fn is_gap(gap: Seq<u8>) -> bool {
    forall|k: int| 0 <= k < gap.len() ==> is_gap_byte(#[trigger] gap[k])
}

/// What may stand behind a value: white space, a comma or a closing brace.
pub open spec fn is_stop(b: u8) -> bool {
    is_gap_byte(b) || b == 0x2c || b == 0x7d
}

/// Reading passes a gap.
pub proof fn lemma_gap(text: Seq<u8>, pos: int, gap: Seq<u8>)
    requires
        stands(text, pos, gap),
        is_gap(gap),
        pos + gap.len() < text.len(),
        !is_gap_byte(text[pos + gap.len()]),
    ensures
        after_space(text, pos) == pos + gap.len(),
    decreases gap.len(),
{
    if gap.len() > 0 {
        let rest = gap.skip(1);
        assert(text[pos + 0] == gap[0]);
        assert(is_gap_byte(gap[0]));
        assert forall|k: int| 0 <= k < rest.len() implies text[pos + 1 + k] == #[trigger] rest[k]
            && is_gap_byte(rest[k]) by {
            assert(rest[k] == gap[k + 1]);
            assert(text[pos + (k + 1)] == gap[k + 1]);
        }
        lemma_gap(text, pos + 1, rest);
    }
}

/// One gap behind another is a gap.
pub proof fn lemma_gap_runs(text: Seq<u8>, pos: int, gap: Seq<u8>, end: int)
    requires
        stands(text, pos, gap),
        is_gap(gap),
        after_space(text, pos + gap.len()) == end,
    ensures
        after_space(text, pos) == end,
    decreases gap.len(),
{
    if gap.len() > 0 {
        let rest = gap.skip(1);
        assert(text[pos + 0] == gap[0]);
        assert(is_gap_byte(gap[0]));
        assert forall|k: int| 0 <= k < rest.len() implies text[pos + 1 + k] == #[trigger] rest[k]
            && is_gap_byte(rest[k]) by {
            assert(rest[k] == gap[k + 1]);
            assert(text[pos + (k + 1)] == gap[k + 1]);
        }
        lemma_gap_runs(text, pos + 1, rest, end);
    }
}

/// What can stand between the quotes of a string: a backslash takes the byte behind it along, and
/// no other byte is a quote.
pub open spec fn is_contents(s: Seq<u8>) -> bool
    decreases s.len(),
{
    if s.len() == 0 {
        true
    } else if s[0] == 0x5c {
        s.len() >= 2 && is_contents(s.skip(2))
    } else {
        s[0] != 0x22 && is_contents(s.skip(1))
    }
}

/// A string with quotes around it.
pub open spec fn quoted(s: Seq<u8>) -> Seq<u8> {
    seq![0x22u8] + s + seq![0x22u8]
}

proof fn lemma_closing(text: Seq<u8>, pos: int, s: Seq<u8>)
    requires
        stands(text, pos, s),
        is_contents(s),
        pos + s.len() < text.len(),
        text[pos + s.len()] == 0x22,
    ensures
        closing_quote(text, pos) == Some(pos + s.len()),
    decreases s.len(),
{
    if s.len() > 0 {
        assert(text[pos + 0] == s[0]);
        let step: int = if s[0] == 0x5c {
            2
        } else {
            1
        };
        let rest = s.skip(step);
        assert forall|k: int| 0 <= k < rest.len() implies text[pos + step + k]
            == #[trigger] rest[k] by {
            assert(rest[k] == s[k + step]);
            assert(text[pos + (k + step)] == s[k + step]);
        }
        lemma_closing(text, pos + step, rest);
    }
}

/// A string is read as its contents.
pub proof fn lemma_string(text: Seq<u8>, pos: int, gap: Seq<u8>, s: Seq<u8>)
    requires
        stands(text, pos, gap + quoted(s)),
        is_gap(gap),
        is_contents(s),
    ensures
        after_space(text, pos) == pos + gap.len(),
        text[pos + gap.len()] == 0x22,
        string_at(text, pos) == (Some(s), pos + gap.len() + s.len() + 2),
{
    lemma_split(text, pos, gap, quoted(s));
    let open = pos + gap.len();
    lemma_split(text, open, seq![0x22u8] + s, seq![0x22u8]);
    lemma_split(text, open, seq![0x22u8], s);
    assert(text[open + 0] == seq![0x22u8][0]);
    assert(text[open + 1 + s.len() + 0] == seq![0x22u8][0]);
    lemma_gap(text, pos, gap);
    lemma_closing(text, open + 1, s);
    assert(text.subrange(open + 1, open + 1 + s.len()) =~= s);
}

/// Digits, or nothing.
pub open spec fn is_digits(s: Seq<u8>) -> bool {
    forall|k: int| 0 <= k < s.len() ==> 0x30 <= #[trigger] s[k] <= 0x39
}

/// A minus, a plus, or nothing.
pub open spec fn is_sign_text(s: Seq<u8>) -> bool {
    s.len() == 0 || s == seq![0x2du8] || s == seq![0x2bu8]
}

/// A decimal literal in its pieces.
pub struct Literal {
    pub sign: Seq<u8>,
    pub whole: Seq<u8>,
    pub point: Seq<u8>,
    pub fraction: Seq<u8>,
    pub mark: Seq<u8>,
    pub exponent_sign: Seq<u8>,
    pub exponent: Seq<u8>,
}

impl Literal {
    /// Digits before or behind the point, and digits behind the mark of an exponent.
    pub open spec fn wf(self) -> bool {
        &&& is_sign_text(self.sign)
        &&& is_digits(self.whole)
        &&& self.point.len() == 0 || self.point == seq![0x2eu8]
        &&& is_digits(self.fraction)
        &&& self.point.len() == 0 ==> self.fraction.len() == 0
        &&& self.whole.len() + self.fraction.len() > 0
        &&& self.mark.len() == 0 || self.mark == seq![0x65u8] || self.mark == seq![0x45u8]
        &&& is_sign_text(self.exponent_sign)
        &&& is_digits(self.exponent)
        &&& self.mark.len() == 0 ==> self.exponent_sign.len() == 0 && self.exponent.len() == 0
        &&& self.mark.len() > 0 ==> self.exponent.len() > 0
    }

    pub open spec fn text(self) -> Seq<u8> {
        self.sign + self.whole + self.point + self.fraction + self.mark + self.exponent_sign
            + self.exponent
    }
}

proof fn lemma_digits(text: Seq<u8>, pos: int, s: Seq<u8>)
    requires
        stands(text, pos, s),
        is_digits(s),
        pos + s.len() < text.len(),
        !(0x30 <= text[pos + s.len()] <= 0x39),
    ensures
        after_digits(text, pos) == pos + s.len(),
    decreases s.len(),
{
    if s.len() > 0 {
        let rest = s.skip(1);
        assert(text[pos + 0] == s[0]);
        assert(0x30 <= s[0] <= 0x39);
        assert forall|k: int| 0 <= k < rest.len() implies text[pos + 1 + k] == #[trigger] rest[k]
            && 0x30 <= rest[k] <= 0x39 by {
            assert(rest[k] == s[k + 1]);
            assert(text[pos + (k + 1)] == s[k + 1]);
        }
        lemma_digits(text, pos + 1, rest);
    }
}

proof fn lemma_sign(text: Seq<u8>, pos: int, s: Seq<u8>)
    requires
        stands(text, pos, s),
        is_sign_text(s),
        pos + s.len() < text.len(),
        text[pos + s.len()] != 0x2d && text[pos + s.len()] != 0x2b,
    ensures
        after_sign(text, pos) == pos + s.len(),
{
    if s.len() > 0 {
        assert(text[pos + 0] == s[0]);
    }
}

/// A literal is read as far as it goes.
proof fn lemma_literal(text: Seq<u8>, pos: int, l: Literal)
    requires
        l.wf(),
        stands(text, pos, l.text()),
        pos + l.text().len() < text.len(),
        is_stop(text[pos + l.text().len()]) || text[pos + l.text().len()] == 0x22,
    ensures
        after_number(text, pos) == pos + l.text().len(),
        decimal_at(text, pos),
        l.text().len() > 0,
        text[pos] == 0x2d || text[pos] == 0x2b || text[pos] == 0x2e || 0x30 <= text[pos] <= 0x39,
{
    let s6 = l.sign + l.whole + l.point + l.fraction + l.mark + l.exponent_sign;
    let s5 = l.sign + l.whole + l.point + l.fraction + l.mark;
    let s4 = l.sign + l.whole + l.point + l.fraction;
    let s3 = l.sign + l.whole + l.point;
    let s2 = l.sign + l.whole;
    lemma_split(text, pos, s6, l.exponent);
    lemma_split(text, pos, s5, l.exponent_sign);
    lemma_split(text, pos, s4, l.mark);
    lemma_split(text, pos, s3, l.fraction);
    lemma_split(text, pos, s2, l.point);
    lemma_split(text, pos, l.sign, l.whole);
    let p1 = pos + l.sign.len();
    let p2 = p1 + l.whole.len();
    let p3 = p2 + l.point.len();
    let p4 = p3 + l.fraction.len();
    let p5 = p4 + l.mark.len();
    let p6 = p5 + l.exponent_sign.len();
    let p7 = p6 + l.exponent.len();
    if l.whole.len() > 0 {
        assert(text[p1 + 0] == l.whole[0]);
    }
    if l.point.len() > 0 {
        assert(text[p2 + 0] == l.point[0]);
    }
    if l.fraction.len() > 0 {
        assert(text[p3 + 0] == l.fraction[0]);
    }
    if l.mark.len() > 0 {
        assert(text[p4 + 0] == l.mark[0]);
        assert(text[p6 + 0] == l.exponent[0]);
        lemma_sign(text, p5, l.exponent_sign);
        lemma_digits(text, p6, l.exponent);
    }
    if l.sign.len() > 0 {
        assert(text[pos + 0] == l.sign[0]);
    }
    lemma_sign(text, pos, l.sign);
    lemma_digits(text, p1, l.whole);
    if l.point.len() > 0 {
        lemma_digits(text, p3, l.fraction);
    }
    assert(after_mantissa(text, pos) == p4);
    assert(is_exponent_mark(byte_at(text, p4)) == (l.mark.len() > 0));
}

/// Nothing but literals is taken for a number.
pub proof fn law_decimal_is_literal(v: Seq<u8>)
    requires
        is_decimal(v),
    ensures
        exists|l: Literal| l.wf() && #[trigger] l.text() == v,
{
    let p1 = after_sign(v, 0);
    lemma_after_digits(v, p1);
    let p2 = after_digits(v, p1);
    let p3 = if byte_at(v, p2) == Some(0x2eu8) {
        p2 + 1
    } else {
        p2
    };
    if p3 > p2 {
        lemma_after_digits(v, p3);
    }
    let p4 = after_mantissa(v, 0);
    let marked = is_exponent_mark(byte_at(v, p4));
    let p5 = if marked {
        p4 + 1
    } else {
        p4
    };
    let p6 = if marked {
        after_sign(v, p5)
    } else {
        p5
    };
    if marked {
        lemma_after_digits(v, p6);
    }
    let end = v.len() as int;
    let l = Literal {
        sign: v.subrange(0, p1),
        whole: v.subrange(p1, p2),
        point: v.subrange(p2, p3),
        fraction: v.subrange(p3, p4),
        mark: v.subrange(p4, p5),
        exponent_sign: v.subrange(p5, p6),
        exponent: v.subrange(p6, end),
    };
    assert(l.sign.len() == 0 || l.sign =~= seq![0x2du8] || l.sign =~= seq![0x2bu8]);
    assert(l.point.len() == 0 || l.point =~= seq![0x2eu8]);
    assert(l.mark.len() == 0 || l.mark =~= seq![0x65u8] || l.mark =~= seq![0x45u8]);
    assert(l.exponent_sign.len() == 0 || l.exponent_sign =~= seq![0x2du8] || l.exponent_sign
        =~= seq![0x2bu8]);
    assert(l.wf());
    assert(l.text() =~= v);
}

/// The number is read as the text of its literal, with or without quotes around it.
pub proof fn lemma_number(text: Seq<u8>, pos: int, gap: Seq<u8>, l: Literal, quotes: bool)
    requires
        l.wf(),
        is_gap(gap),
        ({
            let value = if quotes {
                quoted(l.text())
            } else {
                l.text()
            };
            &&& stands(text, pos, gap + value)
            &&& pos + gap.len() + value.len() < text.len()
            &&& is_stop(text[pos + gap.len() + value.len()])
        }),
    ensures
        number_field(text, pos) == (
            Some(l.text()),
            pos + gap.len() + l.text().len() + if quotes {
                2int
            } else {
                0
            },
        ),
        after_space(text, pos) == pos + gap.len(),
        text[pos + gap.len()] == 0x22 <==> quotes,
{
    let value = if quotes {
        quoted(l.text())
    } else {
        l.text()
    };
    let open = pos + gap.len();
    lemma_split(text, pos, gap, value);
    if quotes {
        lemma_split(text, open, seq![0x22u8] + l.text(), seq![0x22u8]);
        lemma_split(text, open, seq![0x22u8], l.text());
        assert(text[open + 0] == seq![0x22u8][0]);
        assert(text[open + 1 + l.text().len() + 0] == seq![0x22u8][0]);
        lemma_literal(text, open + 1, l);
        lemma_gap(text, pos, gap);
        assert(text.subrange(open + 1, open + 1 + l.text().len()) =~= l.text());
    } else {
        lemma_literal(text, open, l);
        lemma_gap(text, pos, gap);
        assert(text.subrange(open, open + l.text().len()) =~= l.text());
    }
}

/// `true`.
pub open spec fn true_word() -> Seq<u8> {
    seq![0x74u8, 0x72, 0x75, 0x65]
}

/// `false`.
pub open spec fn false_word() -> Seq<u8> {
    seq![0x66u8, 0x61, 0x6c, 0x73, 0x65]
}

/// `null`.
pub open spec fn null_word() -> Seq<u8> {
    seq![0x6eu8, 0x75, 0x6c, 0x6c]
}

/// `1`.
pub open spec fn one_word() -> Seq<u8> {
    seq![0x31u8]
}

/// `0`.
pub open spec fn zero_word() -> Seq<u8> {
    seq![0x30u8]
}

/// `yes`.
pub open spec fn yes_word() -> Seq<u8> {
    seq![0x79u8, 0x65, 0x73]
}

/// `no`.
pub open spec fn no_word() -> Seq<u8> {
    seq![0x6eu8, 0x6f]
}

/// The spellings of a truth value: the bare word, and a few words in quotes.
pub open spec fn spells(spelling: Seq<u8>, value: bool) -> bool {
    if value {
        spelling == true_word() || spelling == quoted(true_word()) || spelling == quoted(
            one_word(),
        ) || spelling == quoted(yes_word())
    } else {
        spelling == false_word() || spelling == quoted(false_word()) || spelling == quoted(
            zero_word(),
        ) || spelling == quoted(no_word())
    }
}

/// The words as bytes.
pub proof fn lemma_words()
    ensures
        "true".spec_bytes() == true_word(),
        "false".spec_bytes() == false_word(),
        "null".spec_bytes() == null_word(),
        "1".spec_bytes() == one_word(),
        "0".spec_bytes() == zero_word(),
        "yes".spec_bytes() == yes_word(),
        "no".spec_bytes() == no_word(),
{
    reveal_strlit("true");
    assert("true".is_ascii());
    assert("true".spec_bytes() =~= true_word());
    reveal_strlit("false");
    assert("false".is_ascii());
    assert("false".spec_bytes() =~= false_word());
    reveal_strlit("null");
    assert("null".is_ascii());
    assert("null".spec_bytes() =~= null_word());
    reveal_strlit("1");
    assert("1".is_ascii());
    assert("1".spec_bytes() =~= one_word());
    reveal_strlit("0");
    assert("0".is_ascii());
    assert("0".spec_bytes() =~= zero_word());
    reveal_strlit("yes");
    assert("yes".is_ascii());
    assert("yes".spec_bytes() =~= yes_word());
    reveal_strlit("no");
    assert("no".is_ascii());
    assert("no".spec_bytes() =~= no_word());
}

/// The words in quotes that stand for a truth value, and no others.
pub proof fn law_truth_words(s: Seq<u8>)
    ensures
        quoted_bool(s) == Some(true) <==> s == true_word() || s == one_word() || s == yes_word(),
        quoted_bool(s) == Some(false) <==> s == false_word() || s == zero_word() || s == no_word(),
{
    lemma_words();
    assert(true_word().len() == 4 && one_word().len() == 1 && yes_word().len() == 3);
    assert(false_word().len() == 5 && zero_word().len() == 1 && no_word().len() == 2);
    assert(one_word()[0] != zero_word()[0]);
}

/// A word that stands somewhere occurs there.
pub proof fn lemma_word(text: Seq<u8>, pos: int, word: Seq<u8>)
    requires
        stands(text, pos, word),
    ensures
        occurs_at(text, word, pos),
{
    assert(text.subrange(pos, pos + word.len()) =~= word);
}

/// A word does not occur where another byte stands.
pub proof fn lemma_no_word(text: Seq<u8>, pos: int, word: Seq<u8>)
    requires
        word.len() > 0,
        0 <= pos < text.len(),
        text[pos] != word[0],
    ensures
        !occurs_at(text, word, pos),
{
    if occurs_at(text, word, pos) {
        assert(text.subrange(pos, pos + word.len())[0] == text[pos]);
    }
}

proof fn lemma_quoted_truth(text: Seq<u8>, pos: int, gap: Seq<u8>, word: Seq<u8>, value: bool)
    requires
        is_gap(gap),
        stands(text, pos, gap + quoted(word)),
        is_contents(word),
        quoted_bool(word) == Some(value),
    ensures
        bool_field(text, pos) == (Some(value), pos + gap.len() + quoted(word).len()),
{
    lemma_words();
    lemma_string(text, pos, gap, word);
    let open = pos + gap.len();
    lemma_no_word(text, open, true_word());
    lemma_no_word(text, open, false_word());
}

/// A truth value is read as what its spelling says.
pub proof fn lemma_truth(text: Seq<u8>, pos: int, gap: Seq<u8>, spelling: Seq<u8>, value: bool)
    requires
        is_gap(gap),
        spells(spelling, value),
        stands(text, pos, gap + spelling),
    ensures
        bool_field(text, pos) == (Some(value), pos + gap.len() + spelling.len()),
{
    lemma_words();
    reveal_with_fuel(is_contents, 6);
    let open = pos + gap.len();
    lemma_split(text, pos, gap, spelling);
    assert(text[open + 0] == spelling[0]);
    if spelling == true_word() {
        lemma_gap(text, pos, gap);
        lemma_word(text, open, true_word());
    } else if spelling == false_word() {
        lemma_gap(text, pos, gap);
        lemma_word(text, open, false_word());
        lemma_no_word(text, open, true_word());
    } else if value {
        assert(one_word() != zero_word() && one_word()[0] != false_word()[0]);
        if spelling == quoted(true_word()) {
            lemma_quoted_truth(text, pos, gap, true_word(), value);
        } else if spelling == quoted(one_word()) {
            lemma_quoted_truth(text, pos, gap, one_word(), value);
        } else {
            lemma_quoted_truth(text, pos, gap, yes_word(), value);
        }
    } else {
        assert(false_word().len() == 5 && zero_word().len() == 1 && no_word().len() == 2);
        assert(zero_word()[0] != one_word()[0]);
        if spelling == quoted(false_word()) {
            lemma_quoted_truth(text, pos, gap, false_word(), value);
        } else if spelling == quoted(zero_word()) {
            lemma_quoted_truth(text, pos, gap, zero_word(), value);
        } else {
            lemma_quoted_truth(text, pos, gap, no_word(), value);
        }
    }
}

/// A string in a list, and the space around it.
pub struct Item {
    pub lead: Seq<u8>,
    pub id: Seq<u8>,
    pub tail: Seq<u8>,
}

impl Item {
    pub open spec fn wf(self) -> bool {
        is_gap(self.lead) && is_contents(self.id) && is_gap(self.tail)
    }
}

/// The items from the `i`-th on and the end of their list.
pub open spec fn items_from(items: Seq<Item>, i: int) -> Seq<u8>
    decreases items.len() - i,
{
    if 0 <= i < items.len() {
        let item = items[i];
        (if i > 0 {
            seq![0x2cu8]
        } else {
            Seq::empty()
        }) + item.lead + quoted(item.id) + (item.tail + items_from(items, i + 1))
    } else {
        seq![0x5du8]
    }
}

/// What the items from the `i`-th on add to a list.
pub open spec fn kept_from(items: Seq<Item>, i: int, known: Seq<Seq<u8>>) -> Seq<Seq<u8>>
    decreases items.len() - i,
{
    if 0 <= i < items.len() {
        kept_from(items, i + 1, with_known(known, items[i].id))
    } else {
        known
    }
}

/// The items of a list are read one after the other.
pub proof fn lemma_items(
    text: Seq<u8>,
    pos: int,
    gap: Seq<u8>,
    items: Seq<Item>,
    i: int,
    known: Seq<Seq<u8>>,
)
    requires
        0 <= i <= items.len(),
        forall|k: int| 0 <= k < items.len() ==> (#[trigger] items[k]).wf(),
        is_gap(gap),
        stands(text, pos, gap + items_from(items, i)),
    ensures
        known_items(text, pos, known) == (
            kept_from(items, i, known),
            pos + gap.len() + items_from(items, i).len(),
        ),
    decreases items.len() - i,
{
    let rest = items_from(items, i);
    let first = pos + gap.len();
    lemma_split(text, pos, gap, rest);
    assert(rest.len() > 0);
    assert(text[first + 0] == rest[0]);
    if i < items.len() {
        let item = items[i];
        assert(item.wf());
        let comma = if i > 0 {
            seq![0x2cu8]
        } else {
            Seq::<u8>::empty()
        };
        let more = item.tail + items_from(items, i + 1);
        lemma_split(text, first, comma + item.lead + quoted(item.id), more);
        assert(comma + item.lead + quoted(item.id) =~= comma + (item.lead + quoted(item.id)));
        lemma_split(text, first, comma, item.lead + quoted(item.id));
        let start = first + comma.len();
        lemma_string(text, start, item.lead, item.id);
        let open = start + item.lead.len();
        let end = open + item.id.len() + 2;
        assert(after_space(text, open) == open);
        assert(string_at(text, open) == (Some(item.id), end));
        lemma_items(text, end, item.tail, items, i + 1, with_known(known, item.id));
        assert(known_items(text, start, known) == known_items(
            text,
            end,
            with_known(known, item.id),
        ));
        if i > 0 {
            assert(text[first + 0] == comma[0]);
            lemma_gap(text, pos, gap);
            assert(known_items(text, pos, known) == known_items(text, first + 1, known));
        } else {
            assert(gap + (item.lead + quoted(item.id)) =~= (gap + item.lead) + quoted(item.id));
            assert(stands(text, pos, (gap + item.lead) + quoted(item.id))) by {
                let all = (gap + item.lead) + quoted(item.id);
                let own = item.lead + quoted(item.id);
                assert forall|k: int| 0 <= k < all.len() implies text[pos + k]
                    == #[trigger] all[k] by {
                    if k < gap.len() {
                        assert(all[k] == gap[k]);
                    } else {
                        assert(all[k] == own[k - gap.len()]);
                        assert(text[first + (k - gap.len())] == own[k - gap.len()]);
                    }
                }
            }
            assert forall|k: int| 0 <= k < (gap + item.lead).len() implies is_gap_byte(
                #[trigger] (gap + item.lead)[k],
            ) by {
                if k < gap.len() {
                    assert((gap + item.lead)[k] == gap[k]);
                } else {
                    assert((gap + item.lead)[k] == item.lead[k - gap.len()]);
                }
            }
            lemma_string(text, pos, gap + item.lead, item.id);
        }
        assert(rest.len() == comma.len() + item.lead.len() + item.id.len() + 2 + item.tail.len()
            + items_from(items, i + 1).len());
    } else {
        lemma_gap(text, pos, gap);
    }
}

/// The first 64 items are kept, each by its first 32 bytes.
pub proof fn lemma_kept(items: Seq<Item>, i: int, known: Seq<Seq<u8>>)
    requires
        0 <= i <= items.len(),
        known.len() <= 64,
    ensures
        ({
            let kept = kept_from(items, i, known);
            &&& kept.len() == if known.len() + items.len() - i < 64 {
                known.len() + items.len() - i
            } else {
                64
            }
            &&& forall|k: int| 0 <= k < known.len() ==> #[trigger] kept[k] == known[k]
            &&& forall|k: int|
                known.len() <= k < kept.len() ==> #[trigger] kept[k] == first_bytes(
                    items[i + k - known.len()].id,
                    32,
                )
        }),
    decreases items.len() - i,
{
    if i < items.len() {
        let more = with_known(known, items[i].id);
        lemma_kept(items, i + 1, more);
        let kept = kept_from(items, i, known);
        assert forall|k: int| 0 <= k < known.len() implies #[trigger] kept[k] == known[k] by {
            assert(kept[k] == more[k]);
        }
        assert forall|k: int| known.len() <= k < kept.len() implies #[trigger] kept[k]
            == first_bytes(items[i + k - known.len()].id, 32) by {
            if known.len() < 64 {
                assert(more[known.len() as int] == first_bytes(items[i].id, 32));
                if k == known.len() {
                    assert(kept[k] == more[k]);
                } else {
                    assert(i + 1 + k - more.len() == i + k - known.len());
                }
            }
        }
    }
}

/// At most the first `n` bytes of a text.
pub open spec fn first_bytes(s: Seq<u8>, n: int) -> Seq<u8> {
    if s.len() <= n {
        s
    } else {
        s.take(n)
    }
}

/// Any JSON value is passed.
pub proof fn lemma_other(text: Seq<u8>, pos: int, gap: Seq<u8>, value: Seq<u8>)
    requires
        is_gap(gap),
        value.len() > 0,
        !is_gap_byte(value[0]),
        json_end(value.push(0x7d), 0) == Some(value.len() as int),
        stands(text, pos, gap + value),
        pos + gap.len() + value.len() < text.len(),
        is_stop(text[pos + gap.len() + value.len()]),
    ensures
        after_value(text, pos) == pos + gap.len() + value.len(),
{
    let own = value.push(0x7d);
    let start = pos + gap.len();
    lemma_split(text, pos, gap, value);
    assert(text[start + 0] == value[0]);
    lemma_gap(text, pos, gap);
    law_json_is_passed(own, 0);
    assert forall|x: int| 0 <= x < value.len() implies #[trigger] own[x] == text[x + start] by {
        assert(text[start + x] == value[x]);
    }
    assert(in_common(own, text, start, 0, value.len() as int));
    assert(own[0] == value[0]);
    assert(after_space(own, 0) == 0);
    lemma_value_local(own, text, start, 0, value.len() as int, 0);
    assert(after_space(text, start) == start);
    assert(after_value(text, pos) == after_value(text, start));
}

} // verus!
