//! Settling what a transaction says once its numbers are known: the defaults, the checks, and
//! the transaction as the scorer sees it.
use vstd::prelude::*;

use crate::bytes::{bytes_eq, DIGIT_0, MINUS};
use crate::ieee::{Double, DOUBLE_ONE, DOUBLE_ZERO};
use crate::json::slice_view;
use crate::parser::{contents, Mcc, MccText, ScannedTx, TxText};
use crate::types::{TxInput, MCC_BUF};
use crate::vectorize::{is_positive, positive_else, positive_or};

verus! {

/// The values of a transaction's literals, where it has them, and of what is computed from
/// its times.
#[derive(Clone, Copy, Debug)]
pub struct TxNumbers {
    pub amount: Double,
    pub installments: Double,
    pub customer_avg_amount: Double,
    pub merchant_avg_amount: Double,
    pub tx_count_24h: Double,
    pub km_from_home: Double,
    pub km_from_last_tx: Double,
    /// [`ScannedTx::elapsed_seconds`] in minutes.
    pub minutes_since_last_tx: Double,
    /// The whole part of a merchant category code that is written as a number.
    pub mcc: i64,
}

/// The difference of two times, held to what an `i64` can say.
pub open spec fn seconds_between(from: int, to: int) -> int {
    if to - from > i64::MAX {
        i64::MAX as int
    } else if to - from < i64::MIN {
        i64::MIN as int
    } else {
        to - from
    }
}

/// A value that the body states, or else the default.
pub open spec fn stated(literal: Option<Seq<u8>>, value: Double, default: u64) -> Double {
    if literal is Some {
        value
    } else {
        Double { bits: default }
    }
}

/// An amount that can be scored: finite and not below zero.
pub open spec fn is_amount(v: Double) -> bool {
    v.finite() && !v.less(Double { bits: DOUBLE_ZERO })
}

/// What stands in for an average that is not positive.
pub open spec fn average_fallback(amount: Double) -> Double {
    amount.larger(Double { bits: DOUBLE_ONE })
}

/// The merchant's id is missing or is not among those known.
pub open spec fn is_unknown(tx: TxText) -> bool {
    tx.merchant_id.len() == 0 || !tx.known_merchants.contains(tx.merchant_id)
}

/// A natural number in decimal digits.
pub open spec fn decimal_digits(n: nat) -> Seq<u8>
    decreases n,
{
    if n < 10 {
        seq![(DIGIT_0 + n) as u8]
    } else {
        decimal_digits(n / 10).push((DIGIT_0 + n % 10) as u8)
    }
}

/// An integer in decimal digits, behind a minus sign where it is negative.
pub open spec fn decimal_text(n: int) -> Seq<u8> {
    if n < 0 {
        seq![MINUS] + decimal_digits((-n) as nat)
    } else {
        decimal_digits(n as nat)
    }
}

/// The first bytes of `s` that fit the buffer of a category code, and zeros behind them.
pub open spec fn mcc_padded(s: Seq<u8>) -> Seq<u8> {
    Seq::new(
        MCC_BUF as nat,
        |i: int|
            if i < s.len() {
                s[i]
            } else {
                0u8
            },
    )
}

fn write_digits(n: u64) -> (r: Vec<u8>)
    ensures
        r@ == decimal_digits(n as nat),
    decreases n,
{
    if n < 10 {
        let mut r: Vec<u8> = Vec::new();
        r.push(DIGIT_0 + n as u8);
        assert(r@ =~= decimal_digits(n as nat));
        r
    } else {
        let mut r = write_digits(n / 10);
        r.push(DIGIT_0 + (n % 10) as u8);
        r
    }
}

/// The first bytes of `s` that fit the buffer of a category code, and zeros behind them.
fn pad_mcc(s: &[u8]) -> (r: [u8; MCC_BUF])
    ensures
        r@ == mcc_padded(s@),
{
    let mut out: [u8; MCC_BUF] = [0u8;MCC_BUF];
    let mut i: usize = 0;
    while i < MCC_BUF && i < s.len()
        invariant
            i <= MCC_BUF,
            i <= s@.len(),
            out@.len() == MCC_BUF,
            forall|k: int| 0 <= k < i ==> out@[k] == s@[k],
            forall|k: int| i <= k < MCC_BUF ==> out@[k] == 0,
        decreases MCC_BUF - i,
    {
        out[i] = s[i];
        i += 1;
    }
    assert(out@ =~= mcc_padded(s@));
    out
}

/// A category code that was written as a number, in a full buffer.
pub fn format_mcc_number(n: i64) -> (r: [u8; MCC_BUF])
    ensures
        r@ == mcc_padded(decimal_text(n as int)),
{
    if n < 0 {
        let magnitude: u64 = (-(n as i128)) as u64;
        let digits = write_digits(magnitude);
        let mut text: Vec<u8> = Vec::new();
        text.push(MINUS);
        let mut i: usize = 0;
        while i < digits.len()
            invariant
                i <= digits@.len(),
                text@ == seq![MINUS] + digits@.take(i as int),
            decreases digits@.len() - i,
        {
            text.push(digits[i]);
            i += 1;
            assert(text@ =~= seq![MINUS] + digits@.take(i as int));
        }
        assert(digits@.take(i as int) =~= digits@);
        pad_mcc(text.as_slice())
    } else {
        let digits = write_digits(n as u64);
        pad_mcc(digits.as_slice())
    }
}

/// Keeps the first bytes of a merchant category code.
pub fn set_mcc_bytes(tx: &mut TxInput, mcc: &[u8])
    ensures
        final(tx).mcc@ == mcc_padded(mcc@),
        final(tx).mcc_len == if mcc@.len() < MCC_BUF {
            mcc@.len()
        } else {
            MCC_BUF as nat
        },
        *final(tx) == (TxInput { mcc: final(tx).mcc, mcc_len: final(tx).mcc_len, ..*old(tx) }),
{
    tx.mcc = pad_mcc(mcc);
    tx.mcc_len = if mcc.len() < MCC_BUF {
        mcc.len() as u8
    } else {
        MCC_BUF as u8
    };
}

fn value_or(literal: Option<&[u8]>, value: Double, default: u64) -> (r: Double)
    ensures
        r == stated(slice_view(literal), value, default),
{
    if literal.is_some() {
        value
    } else {
        Double { bits: default }
    }
}

impl<'a> ScannedTx<'a> {
    /// Seconds from the last transaction to this one, or 0 where there is no last one.
    pub fn elapsed_seconds(&self) -> (r: i64)
        ensures
            r == match self@.last_tx_seconds {
                Some(last) => seconds_between(last, self@.requested_at_seconds),
                None => 0,
            },
    {
        match self.last_tx_seconds {
            Some(last) => match self.requested_at_seconds.checked_sub(last) {
                Some(seconds) => seconds,
                None => if last < 0 {
                    i64::MAX
                } else {
                    i64::MIN
                },
            },
            None => 0,
        }
    }

    /// Whether the merchant's id is missing or not among those known.
    pub fn unknown_merchant(&self) -> (r: bool)
        ensures
            r == is_unknown(self@),
    {
        if self.merchant_id.len() == 0 {
            return true;
        }
        let mut i: usize = 0;
        while i < self.known_merchants.len()
            invariant
                i <= self.known_merchants@.len(),
                self.merchant_id@.len() > 0,
                forall|k: int|
                    0 <= k < i ==> contents(self.known_merchants@)[k] != self.merchant_id@,
            decreases self.known_merchants@.len() - i,
        {
            if bytes_eq(self.known_merchants[i], self.merchant_id) {
                assert(contents(self.known_merchants@)[i as int] == self.merchant_id@);
                return false;
            }
            i += 1;
        }
        true
    }

    /// The transaction as the scorer sees it.
    pub fn resolve(&self, n: &TxNumbers) -> (r: TxInput)
        requires
            self.wf(),
        ensures
            r.wf(),
            r.parse_ok ==> is_amount(r.amount) && is_positive(r.installments) && is_positive(
                r.customer_avg_amount,
            ) && is_positive(r.merchant_avg_amount),
            r.amount_seen == self.amount.is_some(),
            r.has_last_tx_km == self.km_from_last_tx.is_some(),
            r.amount == stated(self@.amount, n.amount, DOUBLE_ZERO),
            r.installments == ({
                let v = stated(self@.installments, n.installments, DOUBLE_ONE);
                if self.complete {
                    positive_else(v, Double { bits: DOUBLE_ONE })
                } else {
                    v
                }
            }),
            r.customer_avg_amount == ({
                let v = stated(self@.customer_avg_amount, n.customer_avg_amount, DOUBLE_ZERO);
                if self.complete {
                    positive_else(v, average_fallback(r.amount))
                } else {
                    v
                }
            }),
            r.merchant_avg_amount == ({
                let v = stated(self@.merchant_avg_amount, n.merchant_avg_amount, DOUBLE_ZERO);
                if self.complete {
                    positive_else(v, average_fallback(r.amount))
                } else {
                    v
                }
            }),
            r.tx_count_24h == stated(
                self@.tx_count_24h,
                n.tx_count_24h.larger(Double { bits: DOUBLE_ZERO }),
                DOUBLE_ZERO,
            ),
            r.km_from_home == stated(self@.km_from_home, n.km_from_home, DOUBLE_ZERO),
            r.km_from_last_tx == stated(
                self@.km_from_last_tx,
                n.km_from_last_tx.larger(Double { bits: DOUBLE_ZERO }),
                DOUBLE_ZERO,
            ),
            r.has_last_tx == (self.complete && self.last_tx_seconds.is_some()),
            r.minutes_since_last_tx == if r.has_last_tx {
                n.minutes_since_last_tx.larger(Double { bits: DOUBLE_ZERO })
            } else {
                Double { bits: DOUBLE_ZERO }
            },
            r.requested_at_seconds == self.requested_at_seconds,
            r.hour_of_day == self.hour_of_day,
            r.day_of_week == self.day_of_week,
            match self@.mcc {
                MccText::Text(s) => r.mcc@ == mcc_padded(s) && r.mcc_len == if s.len() < MCC_BUF {
                    s.len()
                } else {
                    MCC_BUF as nat
                },
                MccText::Number(_) => r.mcc@ == mcc_padded(decimal_text(n.mcc as int))
                    && r.mcc_len == MCC_BUF,
            },
            r.is_online == self.is_online,
            r.card_present == self.card_present,
            r.unknown_merchant == (!self.complete || is_unknown(self@)),
            r.parse_ok == (self.parse_ok && self.amount.is_some() && is_amount(r.amount)),
    {
        let zero = Double { bits: DOUBLE_ZERO };
        let one = Double { bits: DOUBLE_ONE };
        let mut tx = TxInput::default();
        tx.amount = value_or(self.amount, n.amount, DOUBLE_ZERO);
        tx.amount_seen = self.amount.is_some();
        tx.installments = value_or(self.installments, n.installments, DOUBLE_ONE);
        tx.customer_avg_amount = value_or(
            self.customer_avg_amount,
            n.customer_avg_amount,
            DOUBLE_ZERO,
        );
        tx.merchant_avg_amount = value_or(
            self.merchant_avg_amount,
            n.merchant_avg_amount,
            DOUBLE_ZERO,
        );
        tx.tx_count_24h = value_or(self.tx_count_24h, n.tx_count_24h.max(zero), DOUBLE_ZERO);
        tx.km_from_home = value_or(self.km_from_home, n.km_from_home, DOUBLE_ZERO);
        tx.km_from_last_tx = value_or(
            self.km_from_last_tx,
            n.km_from_last_tx.max(zero),
            DOUBLE_ZERO,
        );
        tx.has_last_tx_km = self.km_from_last_tx.is_some();
        tx.requested_at_seconds = self.requested_at_seconds;
        tx.hour_of_day = self.hour_of_day;
        tx.day_of_week = self.day_of_week;
        match self.mcc {
            Mcc::Text(s) => {
                set_mcc_bytes(&mut tx, s);
            },
            Mcc::Number(_) => {
                let text = format_mcc_number(n.mcc);
                set_mcc_bytes(&mut tx, &text);
                assert(mcc_padded(text@) =~= text@);
            },
        }
        tx.is_online = self.is_online;
        tx.card_present = self.card_present;
        tx.parse_ok = self.parse_ok;
        if !self.complete {
            return tx;
        }
        tx.unknown_merchant = self.unknown_merchant();
        if self.last_tx_seconds.is_some() {
            tx.minutes_since_last_tx = n.minutes_since_last_tx.max(zero);
            tx.has_last_tx = true;
        }
        if !tx.amount_seen || !tx.amount.is_finite() || tx.amount.lt(zero) {
            tx.parse_ok = false;
        }
        tx.installments = positive_or(tx.installments, one);
        tx.customer_avg_amount = positive_or(tx.customer_avg_amount, tx.amount.max(one));
        tx.merchant_avg_amount = positive_or(tx.merchant_avg_amount, tx.amount.max(one));
        tx
    }
}

} // verus!
