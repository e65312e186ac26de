//! The values that pass between reading a request, scoring it and timing it.
use vstd::prelude::*;

use crate::ieee::{Double, DOUBLE_ONE, DOUBLE_ZERO};

verus! {

/// How many coordinates a feature vector has.
pub const DIM: usize = 14;

/// The scale of quantized reference values unless the configuration sets another.
pub const DEFAULT_SCALE: i64 = 32_767;

/// How many bytes of a merchant category code are kept.
pub const MCC_BUF: usize = 8;

/// A transaction as the scorer sees it, every number by its bit pattern.
#[derive(Clone, Copy, Debug)]
pub struct TxInput {
    pub amount: Double,
    pub installments: Double,
    pub customer_avg_amount: Double,
    pub merchant_avg_amount: Double,
    pub tx_count_24h: Double,
    pub km_from_home: Double,
    pub km_from_last_tx: Double,
    pub minutes_since_last_tx: Double,
    pub requested_at_seconds: i64,
    pub hour_of_day: u8,
    pub day_of_week: u8,
    pub mcc: [u8; MCC_BUF],
    pub mcc_len: u8,
    pub is_online: bool,
    pub card_present: bool,
    pub unknown_merchant: bool,
    pub has_last_tx: bool,
    pub has_last_tx_km: bool,
    pub amount_seen: bool,
    pub parse_ok: bool,
}

impl TxInput {
    /// The bytes of the merchant category code.
    pub open spec fn mcc_bytes(&self) -> Seq<u8> {
        self.mcc@.take(self.mcc_len as int)
    }

    /// The code lies within its buffer, and hour and day are on the clock and the calendar.
    pub open spec fn wf(&self) -> bool {
        self.mcc_len <= MCC_BUF && self.hour_of_day <= 23 && self.day_of_week < 7
    }
}

impl Default for TxInput {
    fn default() -> (r: Self)
        ensures
            r.amount.bits == DOUBLE_ZERO,
            r.installments.bits == DOUBLE_ONE,
            r.customer_avg_amount.bits == DOUBLE_ZERO,
            r.merchant_avg_amount.bits == DOUBLE_ZERO,
            r.tx_count_24h.bits == DOUBLE_ZERO,
            r.km_from_home.bits == DOUBLE_ZERO,
            r.km_from_last_tx.bits == DOUBLE_ZERO,
            r.minutes_since_last_tx.bits == DOUBLE_ZERO,
            r.requested_at_seconds == 0,
            r.hour_of_day == 12,
            r.day_of_week == 3,
            r.mcc@ == Seq::new(MCC_BUF as nat, |i: int| 0u8),
            r.mcc_len == 0,
            !r.is_online,
            r.card_present,
            r.unknown_merchant,
            !r.has_last_tx,
            !r.has_last_tx_km,
            !r.amount_seen,
            r.parse_ok,
    {
        let zero = Double { bits: DOUBLE_ZERO };
        let r = TxInput {
            amount: zero,
            installments: Double { bits: DOUBLE_ONE },
            customer_avg_amount: zero,
            merchant_avg_amount: zero,
            tx_count_24h: zero,
            km_from_home: zero,
            km_from_last_tx: zero,
            minutes_since_last_tx: zero,
            requested_at_seconds: 0,
            hour_of_day: 12,
            day_of_week: 3,
            mcc: [0u8;MCC_BUF],
            mcc_len: 0,
            is_online: false,
            card_present: true,
            unknown_merchant: true,
            has_last_tx: false,
            has_last_tx_km: false,
            amount_seen: false,
            parse_ok: true,
        };
        assert(r.mcc@ =~= Seq::new(MCC_BUF as nat, |i: int| 0u8));
        r
    }
}

/// A transaction of which nothing is known: one installment, no amount, no last transaction, noon
/// on a Thursday, offline with the card present, and an unknown merchant without a category.
pub proof fn law_default_tx(r: TxInput)
    requires
        call_ensures(TxInput::default, (), r),
    ensures
        r.amount == (Double { bits: 0 }),
        r.installments == (Double { bits: 0x3ff0_0000_0000_0000 }),
        r.customer_avg_amount == (Double { bits: 0 }),
        r.merchant_avg_amount == (Double { bits: 0 }),
        r.tx_count_24h == (Double { bits: 0 }),
        r.km_from_home == (Double { bits: 0 }),
        r.km_from_last_tx == (Double { bits: 0 }),
        r.minutes_since_last_tx == (Double { bits: 0 }),
        r.requested_at_seconds == 0,
        r.hour_of_day == 12 && r.day_of_week == 3,
        r.mcc_bytes().len() == 0,
        !r.is_online && r.card_present && r.unknown_merchant,
        !r.has_last_tx && !r.has_last_tx_km && !r.amount_seen,
        r.parse_ok,
{
}

/// How long each stage of one request took, in nanoseconds.
#[derive(Clone, Copy, Debug, PartialEq, Eq, Structural)]
pub struct StageNanos {
    pub http_parse: u128,
    pub json_parse: u128,
    pub vectorize: u128,
    pub ann: u128,
    pub total: u128,
}

impl StageNanos {
    /// The stages of a request that was read already, by the readings of a clock: at its start,
    /// once its body is parsed, once its features are planned, once its neighbours are searched,
    /// and at its end.
    pub fn of(
        start: u128,
        parsed: u128,
        planned: u128,
        searched: u128,
        end: u128,
    ) -> (r: StageNanos)
        requires
            start <= parsed <= planned <= searched <= end,
        ensures
            r.http_parse == 0,
            r.json_parse == parsed - start,
            r.vectorize == planned - parsed,
            r.ann == searched - planned,
            r.total == end - start,
            r.total >= r.json_parse + r.vectorize + r.ann,
    {
        StageNanos {
            json_parse: parsed - start,
            vectorize: planned - parsed,
            ann: searched - planned,
            total: end - start,
            http_parse: 0,
        }
    }
}

/// Each stage takes from one reading of the clock to the next, and the whole from the first to the
/// last.
pub proof fn law_stages_add_up(
    start: u128,
    parsed: u128,
    planned: u128,
    searched: u128,
    end: u128,
    r: StageNanos,
)
    requires
        start <= parsed <= planned <= searched <= end,
        call_ensures(StageNanos::of, (start, parsed, planned, searched, end), r),
    ensures
        start + r.json_parse == parsed,
        parsed + r.vectorize == planned,
        planned + r.ann == searched,
        start + r.total == end,
        r.json_parse + r.vectorize + r.ann + (end - searched) == r.total,
        r.http_parse == 0,
{
}

impl Default for StageNanos {
    fn default() -> (r: Self)
        ensures
            r == (StageNanos { http_parse: 0, json_parse: 0, vectorize: 0, ann: 0, total: 0 }),
    {
        StageNanos { http_parse: 0, json_parse: 0, vectorize: 0, ann: 0, total: 0 }
    }
}

} // verus!
