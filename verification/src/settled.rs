//! What becomes of a transaction's values when it is settled, value by value.
use vstd::arithmetic::power::{lemma_pow0, lemma_pow1, lemma_pow_adds, lemma_pow_increases, pow};
use vstd::prelude::*;

use crate::bytes::is_digit;
use crate::ieee::Double;
use crate::iso::{all_digits, digits_value};
use crate::parser::{Mcc, ScannedTx};
use crate::resolve::{decimal_digits, format_mcc_number, set_mcc_bytes, TxNumbers};
use crate::types::{TxInput, MCC_BUF};
use crate::values::{
    has_value, law_less_by_value, lemma_units_of_constants, one_unit, units,
};

verus! {

/// The ids that two transactions know are the same, in whatever order and however often.
pub open spec fn know_the_same(a: &ScannedTx<'_>, b: &ScannedTx<'_>) -> bool {
    &&& forall|i: int|
        0 <= i < a.known_merchants@.len() ==> exists|j: int|
            0 <= j < b.known_merchants@.len() && #[trigger] b.known_merchants@[j]@ == (
            #[trigger] a.known_merchants@[i])@
    &&& forall|j: int|
        0 <= j < b.known_merchants@.len() ==> exists|i: int|
            0 <= i < a.known_merchants@.len() && #[trigger] a.known_merchants@[i]@ == (
            #[trigger] b.known_merchants@[j])@
}

/// A merchant whose id stands anywhere among those known is not unknown; one that is unknown has
/// no id, or an id that stands at no place among them.
pub proof fn law_known_anywhere(s: &ScannedTx<'_>, r: bool)
    requires
        call_ensures(ScannedTx::unknown_merchant, (s,), r),
    ensures
        forall|k: int|
            0 <= k < s.known_merchants@.len() && s.merchant_id@.len() > 0 && (
            #[trigger] s.known_merchants@[k])@ == s.merchant_id@ ==> !r,
        r && s.merchant_id@.len() > 0 ==> forall|k: int|
            0 <= k < s.known_merchants@.len() ==> (#[trigger] s.known_merchants@[k])@
                != s.merchant_id@,
        !r ==> s.merchant_id@.len() > 0 && exists|k: int|
            0 <= k < s.known_merchants@.len() && (#[trigger] s.known_merchants@[k])@
                == s.merchant_id@,
{
    lemma_unknown(s);
}

/// What a settled transaction says of its merchant: unknown if the body broke off, if the merchant
/// has no id, or if the id stands at no place among those known, and known otherwise.
pub proof fn law_unknown_settled(s: &ScannedTx<'_>, n: &TxNumbers, r: TxInput)
    requires
        call_ensures(ScannedTx::resolve, (s, n), r),
    ensures
        r.unknown_merchant <==> !s.complete || s.merchant_id@.len() == 0 || forall|k: int|
            0 <= k < s.known_merchants@.len() ==> (#[trigger] s.known_merchants@[k])@
                != s.merchant_id@,
{
    lemma_unknown(s);
}

proof fn lemma_unknown(s: &ScannedTx<'_>)
    ensures
        s@.merchant_id == s.merchant_id@,
        s@.known_merchants.contains(s.merchant_id@) <==> exists|k: int|
            0 <= k < s.known_merchants@.len() && (#[trigger] s.known_merchants@[k])@
                == s.merchant_id@,
{
    let known = s@.known_merchants;
    assert(known.len() == s.known_merchants@.len());
    assert forall|k: int| 0 <= k < known.len() implies known[k] == (
    #[trigger] s.known_merchants@[k])@ by {}
    if known.contains(s.merchant_id@) {
        let k = choose|k: int| 0 <= k < known.len() && known[k] == s.merchant_id@;
        assert(s.known_merchants@[k]@ == s.merchant_id@);
    }
    if exists|k: int|
        0 <= k < s.known_merchants@.len() && (#[trigger] s.known_merchants@[k])@
            == s.merchant_id@ {
        let k = choose|k: int|
            0 <= k < s.known_merchants@.len() && (#[trigger] s.known_merchants@[k])@
                == s.merchant_id@;
        assert(known[k] == s.merchant_id@);
    }
}

/// The order in which the known ids are listed does not matter, nor how often each is.
pub proof fn law_known_order(a: &ScannedTx<'_>, b: &ScannedTx<'_>, ra: bool, rb: bool)
    requires
        call_ensures(ScannedTx::unknown_merchant, (a,), ra),
        call_ensures(ScannedTx::unknown_merchant, (b,), rb),
        a.merchant_id@ == b.merchant_id@,
        know_the_same(a, b),
    ensures
        ra == rb,
{
    law_known_anywhere(a, ra);
    law_known_anywhere(b, rb);
    if !ra {
        let k = choose|k: int|
            0 <= k < a.known_merchants@.len() && (#[trigger] a.known_merchants@[k])@
                == a.merchant_id@;
        let j = choose|j: int|
            0 <= j < b.known_merchants@.len() && #[trigger] b.known_merchants@[j]@
                == a.known_merchants@[k]@;
        assert(b.known_merchants@[j]@ == b.merchant_id@);
    }
    if !rb {
        let k = choose|k: int|
            0 <= k < b.known_merchants@.len() && (#[trigger] b.known_merchants@[k])@
                == b.merchant_id@;
        let j = choose|j: int|
            0 <= j < a.known_merchants@.len() && #[trigger] a.known_merchants@[j]@
                == b.known_merchants@[k]@;
        assert(a.known_merchants@[j]@ == a.merchant_id@);
    }
}

/// What a body states outright is kept as it stands.
pub proof fn law_kept(s: &ScannedTx<'_>, n: &TxNumbers, r: TxInput)
    requires
        call_ensures(ScannedTx::resolve, (s, n), r),
    ensures
        r.is_online == s.is_online,
        r.card_present == s.card_present,
        r.requested_at_seconds == s.requested_at_seconds,
        r.hour_of_day == s.hour_of_day,
        r.day_of_week == s.day_of_week,
        r.amount_seen <==> s.amount is Some,
        r.has_last_tx_km <==> s.km_from_last_tx is Some,
        s.amount is Some ==> r.amount == n.amount,
        s.km_from_home is Some ==> r.km_from_home == n.km_from_home,
        s.amount is None ==> units(r.amount) == 0,
        s.km_from_home is None ==> units(r.km_from_home) == 0,
{
    lemma_units_of_constants();
}

/// A transaction can be scored exactly where it was read without fault and states an amount whose
/// value is not below zero.
pub proof fn law_scorable(s: &ScannedTx<'_>, n: &TxNumbers, r: TxInput)
    requires
        call_ensures(ScannedTx::resolve, (s, n), r),
    ensures
        r.parse_ok <==> s.parse_ok && s.amount is Some && has_value(n.amount) && units(n.amount)
            >= 0,
{
    lemma_units_of_constants();
    law_less_by_value(n.amount, Double { bits: 0 });
}

/// A count or an average whose value is above zero is kept. Otherwise a body that was read to its
/// end counts as one installment, and an average as the amount, or as one where the amount is less.
pub proof fn law_averages(s: &ScannedTx<'_>, n: &TxNumbers, r: TxInput)
    requires
        call_ensures(ScannedTx::resolve, (s, n), r),
    ensures
        s.installments is Some && has_value(n.installments) && units(n.installments) > 0
            ==> r.installments == n.installments,
        !s.complete && s.installments is Some ==> r.installments == n.installments,
        !s.complete && s.customer_avg_amount is Some ==> r.customer_avg_amount
            == n.customer_avg_amount,
        !s.complete && s.merchant_avg_amount is Some ==> r.merchant_avg_amount
            == n.merchant_avg_amount,
        s.complete && !(s.installments is Some && has_value(n.installments) && units(
            n.installments,
        ) > 0) ==> units(r.installments) == one_unit(),
        s.customer_avg_amount is Some && has_value(n.customer_avg_amount) && units(
            n.customer_avg_amount,
        ) > 0 ==> r.customer_avg_amount == n.customer_avg_amount,
        s.merchant_avg_amount is Some && has_value(n.merchant_avg_amount) && units(
            n.merchant_avg_amount,
        ) > 0 ==> r.merchant_avg_amount == n.merchant_avg_amount,
        s.complete && has_value(r.amount) && !(s.customer_avg_amount is Some && has_value(
            n.customer_avg_amount,
        ) && units(n.customer_avg_amount) > 0) ==> units(r.customer_avg_amount) == if units(
            r.amount,
        ) > one_unit() {
            units(r.amount)
        } else {
            one_unit()
        },
        s.complete && has_value(r.amount) && !(s.merchant_avg_amount is Some && has_value(
            n.merchant_avg_amount,
        ) && units(n.merchant_avg_amount) > 0) ==> units(r.merchant_avg_amount) == if units(
            r.amount,
        ) > one_unit() {
            units(r.amount)
        } else {
            one_unit()
        },
{
    let zero = Double { bits: 0 };
    let one = Double { bits: 0x3ff0_0000_0000_0000 };
    lemma_units_of_constants();
    law_less_by_value(zero, n.installments);
    law_less_by_value(n.installments, zero);
    law_less_by_value(zero, n.customer_avg_amount);
    law_less_by_value(n.customer_avg_amount, zero);
    law_less_by_value(zero, n.merchant_avg_amount);
    law_less_by_value(n.merchant_avg_amount, zero);
    law_less_by_value(r.amount, one);
    law_less_by_value(one, r.amount);
}

/// A count, a distance or a time whose value is below zero counts as zero, and otherwise is kept.
/// The time since the last transaction counts only where there was one and the body was read to
/// its end.
pub proof fn law_never_negative(s: &ScannedTx<'_>, n: &TxNumbers, r: TxInput)
    requires
        call_ensures(ScannedTx::resolve, (s, n), r),
    ensures
        s.tx_count_24h is Some && has_value(n.tx_count_24h) && units(n.tx_count_24h) >= 0
            ==> r.tx_count_24h == n.tx_count_24h,
        s.tx_count_24h is Some && has_value(n.tx_count_24h) && units(n.tx_count_24h) < 0
            ==> units(r.tx_count_24h) == 0,
        s.tx_count_24h is None ==> units(r.tx_count_24h) == 0,
        s.km_from_last_tx is Some && has_value(n.km_from_last_tx) && units(n.km_from_last_tx) >= 0
            ==> r.km_from_last_tx == n.km_from_last_tx,
        s.km_from_last_tx is Some && has_value(n.km_from_last_tx) && units(n.km_from_last_tx) < 0
            ==> units(r.km_from_last_tx) == 0,
        s.km_from_last_tx is None ==> units(r.km_from_last_tx) == 0,
        r.has_last_tx <==> s.complete && s.last_tx_seconds is Some,
        r.has_last_tx && has_value(n.minutes_since_last_tx) && units(n.minutes_since_last_tx) >= 0
            ==> r.minutes_since_last_tx == n.minutes_since_last_tx,
        r.has_last_tx && has_value(n.minutes_since_last_tx) && units(n.minutes_since_last_tx) < 0
            ==> units(r.minutes_since_last_tx) == 0,
        !r.has_last_tx ==> units(r.minutes_since_last_tx) == 0,
        s.tx_count_24h is Some && !has_value(n.tx_count_24h) && n.tx_count_24h.bits
            != 0x7ff0_0000_0000_0000 ==> units(r.tx_count_24h) == 0,
        s.km_from_last_tx is Some && !has_value(n.km_from_last_tx) && n.km_from_last_tx.bits
            != 0x7ff0_0000_0000_0000 ==> units(r.km_from_last_tx) == 0,
        r.has_last_tx && !has_value(n.minutes_since_last_tx) && n.minutes_since_last_tx.bits
            != 0x7ff0_0000_0000_0000 ==> units(r.minutes_since_last_tx) == 0,
{
    let zero = Double { bits: 0 };
    lemma_units_of_constants();
    law_less_by_value(n.tx_count_24h, zero);
    law_less_by_value(n.km_from_last_tx, zero);
    law_less_by_value(n.minutes_since_last_tx, zero);
}

/// The time from the last transaction to this one, where it fits, brings the one time to the
/// other.
pub proof fn law_elapsed(s: &ScannedTx<'_>, r: i64)
    requires
        call_ensures(ScannedTx::elapsed_seconds, (s,), r),
    ensures
        s.last_tx_seconds is None ==> r == 0,
        s.last_tx_seconds matches Some(last) ==> {
            &&& last + r == s.requested_at_seconds || r == i64::MAX || r == i64::MIN
            &&& r == i64::MAX ==> last + r <= s.requested_at_seconds
            &&& r == i64::MIN ==> last + r >= s.requested_at_seconds
        },
{
}

/// A category code that is written as a text is the text, or the first eight bytes of it.
pub proof fn law_code_text(s: &ScannedTx<'_>, n: &TxNumbers, r: TxInput, text: &[u8])
    requires
        call_ensures(ScannedTx::resolve, (s, n), r),
        s.mcc == Mcc::Text(text),
    ensures
        text@.len() <= 8 ==> r.mcc_bytes() == text@,
        text@.len() > 8 ==> r.mcc_bytes() == text@.take(8),
{
    if text@.len() <= 8 {
        assert(r.mcc_bytes() =~= text@);
    } else {
        assert(r.mcc_bytes() =~= text@.take(8));
    }
}

/// A category code that is written as a number is the text of that number, and zeros behind it.
pub proof fn law_code_number(
    s: &ScannedTx<'_>,
    n: &TxNumbers,
    r: TxInput,
    literal: &[u8],
    text: [u8; MCC_BUF],
)
    requires
        call_ensures(ScannedTx::resolve, (s, n), r),
        call_ensures(format_mcc_number, (n.mcc,), text),
        s.mcc == Mcc::Number(literal),
    ensures
        r.mcc_bytes() == text@,
{
    assert(r.mcc_bytes() =~= text@);
}

/// A digit in front counts for its place, and one digit for itself.
pub proof fn law_place_value(s: Seq<u8>)
    requires
        s.len() > 0,
    ensures
        digits_value(s) == (s[0] - 0x30) * pow(10, (s.len() - 1) as nat) + digits_value(s.skip(1)),
        s.len() == 1 ==> digits_value(s) == s[0] - 0x30,
    decreases s.len(),
{
    if s.len() == 1 {
        assert(s.drop_last() =~= Seq::<u8>::empty());
        assert(s.skip(1) =~= Seq::<u8>::empty());
        assert(digits_value(s.drop_last()) == 0);
        lemma_pow0(10);
        assert(s.last() == s[0]);
    } else {
        let short = s.drop_last();
        law_place_value(short);
        assert(short.skip(1) =~= s.skip(1).drop_last());
        assert(s.skip(1).last() == s.last());
        let p = pow(10, (s.len() - 2) as nat);
        lemma_pow_adds(10, 1, (s.len() - 2) as nat);
        lemma_pow1(10);
        let a = s[0] - 0x30;
        assert(10 * (a * p) == a * (10 * p)) by (nonlinear_arith);
        assert(digits_value(s) == 10 * digits_value(short) + (s.last() - 0x30));
        assert(digits_value(s.skip(1)) == 10 * digits_value(s.skip(1).drop_last()) + (s.last()
            - 0x30));
    }
}

/// Writing a number and reading its digits gives the number back; no digit in front is zero but
/// that of zero itself.
pub proof fn law_digits_read_back(n: nat)
    ensures
        digits_value(decimal_digits(n)) == n,
        all_digits(decimal_digits(n)),
        decimal_digits(n).len() > 0,
        n > 0 ==> decimal_digits(n)[0] != 0x30,
        pow(10, decimal_digits(n).len()) > n,
        n > 0 ==> pow(10, (decimal_digits(n).len() - 1) as nat) <= n,
    decreases n,
{
    let s = decimal_digits(n);
    lemma_pow0(10);
    lemma_pow1(10);
    if n < 10 {
        assert(s.drop_last() =~= Seq::<u8>::empty());
        assert(digits_value(s.drop_last()) == 0);
    } else {
        law_digits_read_back(n / 10);
        let short = decimal_digits(n / 10);
        assert(s.drop_last() =~= short);
        assert forall|k: int| 0 <= k < s.len() implies is_digit(#[trigger] s[k]) by {
            if k < short.len() {
                assert(s[k] == short[k]);
            }
        }
        lemma_pow_adds(10, 1, short.len());
        lemma_pow_adds(10, 1, (short.len() - 1) as nat);
    }
}

proof fn lemma_length_bound(n: nat)
    ensures
        n < 100_000_000 <==> decimal_digits(n).len() <= 8,
{
    law_digits_read_back(n);
    let len = decimal_digits(n).len();
    lemma_pow1(10);
    lemma_pow_adds(10, 1, 1);
    lemma_pow_adds(10, 2, 2);
    lemma_pow_adds(10, 4, 4);
    assert(pow(10, 2) == 10 * 10);
    assert(pow(10, 4) == 100 * 100);
    assert(pow(10, 8) == 10_000 * 10_000);
    if len <= 8 {
        lemma_pow_increases(10, len, 8);
    } else {
        lemma_pow_increases(10, 8, (len - 1) as nat);
    }
}

/// A code written as a number that fits has the digits of the number, with none but zero bytes
/// behind them; one that does not fit has the digits in front.
pub proof fn law_code_digits(n: i64, r: [u8; MCC_BUF])
    requires
        call_ensures(format_mcc_number, (n,), r),
        n >= 0,
    ensures
        n < 100_000_000 ==> exists|len: int|
            1 <= len <= 8 && #[trigger] digits_value(r@.take(len)) == n && all_digits(r@.take(len))
                && (len > 1 ==> r@[0] != 0x30) && (forall|k: int|
                len <= k < 8 ==> #[trigger] r@[k] == 0),
        n >= 100_000_000 ==> all_digits(r@),
{
    law_digits_read_back(n as nat);
    lemma_length_bound(n as nat);
    let s = decimal_digits(n as nat);
    if n < 100_000_000 {
        let len = s.len() as int;
        assert(r@.take(len) =~= s);
        assert(digits_value(r@.take(len)) == n);
    }
}

/// A number that does not fit gives the same code as without its last digit.
pub proof fn law_code_cut(n: i64, r: [u8; MCC_BUF], shorter: [u8; MCC_BUF])
    requires
        call_ensures(format_mcc_number, (n,), r),
        n >= 100_000_000,
        call_ensures(format_mcc_number, ((n / 10) as i64,), shorter),
    ensures
        r@ == shorter@,
{
    law_digits_read_back(n as nat);
    lemma_length_bound(n as nat);
    assert(decimal_digits(n as nat) == decimal_digits((n / 10) as nat).push(
        (0x30 + n % 10) as u8,
    ));
    assert(r@ =~= shorter@);
}

/// A negative number is written like the positive one, behind a minus sign.
pub proof fn law_code_negative(n: i64, r: [u8; MCC_BUF], positive: [u8; MCC_BUF])
    requires
        i64::MIN < n < 0,
        call_ensures(format_mcc_number, (n,), r),
        call_ensures(format_mcc_number, ((-n) as i64,), positive),
    ensures
        r@[0] == 0x2d,
        forall|k: int| 1 <= k < 8 ==> #[trigger] r@[k] == positive@[k - 1],
{
}

/// Setting a category code keeps its first eight bytes, and nothing else changes.
pub proof fn law_code_set(tx: &mut TxInput, code: &[u8])
    requires
        call_ensures(set_mcc_bytes, (tx, code), ()),
    ensures
        code@.len() <= 8 ==> final(tx).mcc_bytes() == code@,
        code@.len() > 8 ==> final(tx).mcc_bytes() == code@.take(8),
        final(tx).amount == old(tx).amount,
        final(tx).is_online == old(tx).is_online,
        final(tx).card_present == old(tx).card_present,
        final(tx).unknown_merchant == old(tx).unknown_merchant,
        final(tx).parse_ok == old(tx).parse_ok,
        (TxInput { mcc: old(tx).mcc, mcc_len: old(tx).mcc_len, ..*final(tx) }) == *old(tx),
{
    if code@.len() <= 8 {
        assert(final(tx).mcc_bytes() =~= code@);
    } else {
        assert(final(tx).mcc_bytes() =~= code@.take(8));
    }
}

} // verus!
