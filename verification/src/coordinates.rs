//! What each coordinate of a feature vector says, and of which field of the transaction.
use vstd::arithmetic::power2::{lemma2_to64, lemma_pow2_adds, lemma_pow2_pos, pow2};
use vstd::prelude::*;
use vstd::utf8::{encode_utf8, encode_utf8_decode_utf8, encode_utf8_valid_utf8, valid_utf8};

use crate::ieee::Double;
use crate::types::{TxInput, DIM};
use crate::values::{
    double_units, has_value, law_less_by_value, lemma_unit_share, lemma_units_of_constants,
    one_unit, units,
};
use crate::vectorize::{
    default_mcc_risk, normalized_vector, quantize_normalized, Feature, Limits, Normalization,
    Quantized, RiskTable,
};

verus! {

/// Each flag has a coordinate of its own, which is one if the flag is set and zero if it is not,
/// whatever else the transaction says.
pub proof fn law_flags(tx: &TxInput, norm: &Normalization, r: [Feature; DIM])
    requires
        call_ensures(normalized_vector, (tx, norm), r),
    ensures
        tx.is_online ==> r@[9] == Feature::Exact(Double { bits: 0x3ff0_0000_0000_0000 }),
        !tx.is_online ==> r@[9] == Feature::Exact(Double { bits: 0 }),
        tx.card_present ==> r@[10] == Feature::Exact(Double { bits: 0x3ff0_0000_0000_0000 }),
        !tx.card_present ==> r@[10] == Feature::Exact(Double { bits: 0 }),
        tx.unknown_merchant ==> r@[11] == Feature::Exact(Double { bits: 0x3ff0_0000_0000_0000 }),
        !tx.unknown_merchant ==> r@[11] == Feature::Exact(Double { bits: 0 }),
{
}

/// A flag's coordinate comes out as one if and only if the flag is set, whatever quotient it is
/// handed.
pub proof fn law_flags_settled(
    tx: &TxInput,
    norm: &Normalization,
    r: [Feature; DIM],
    quotient: Double,
    settled: Double,
)
    requires
        call_ensures(normalized_vector, (tx, norm), r),
    ensures
        call_ensures(Feature::settle, (&r@[9], quotient), settled) ==> (tx.is_online <==> units(
            settled,
        ) == one_unit()) && (!tx.is_online <==> units(settled) == 0),
        call_ensures(Feature::settle, (&r@[10], quotient), settled) ==> (tx.card_present <==> units(
            settled,
        ) == one_unit()) && (!tx.card_present <==> units(settled) == 0),
        call_ensures(Feature::settle, (&r@[11], quotient), settled) ==> (tx.unknown_merchant
            <==> units(settled) == one_unit()) && (!tx.unknown_merchant <==> units(settled) == 0),
{
    lemma_units_of_constants();
}

/// A coordinate depends on its own fields alone: where two transactions agree on those, they
/// agree on the coordinate, whatever their other fields say.
pub proof fn law_own_fields(
    a: &TxInput,
    b: &TxInput,
    norm: &Normalization,
    ra: [Feature; DIM],
    rb: [Feature; DIM],
)
    requires
        call_ensures(normalized_vector, (a, norm), ra),
        call_ensures(normalized_vector, (b, norm), rb),
    ensures
        a.amount == b.amount ==> ra@[0] == rb@[0],
        a.installments == b.installments ==> ra@[1] == rb@[1],
        a.amount == b.amount && a.customer_avg_amount == b.customer_avg_amount ==> ra@[2]
            == rb@[2],
        a.hour_of_day == b.hour_of_day ==> ra@[3] == rb@[3],
        a.day_of_week == b.day_of_week ==> ra@[4] == rb@[4],
        a.has_last_tx == b.has_last_tx && a.minutes_since_last_tx == b.minutes_since_last_tx
            ==> ra@[5] == rb@[5],
        a.has_last_tx == b.has_last_tx && a.km_from_last_tx == b.km_from_last_tx ==> ra@[6]
            == rb@[6],
        a.km_from_home == b.km_from_home ==> ra@[7] == rb@[7],
        a.tx_count_24h == b.tx_count_24h ==> ra@[8] == rb@[8],
        a.is_online == b.is_online ==> ra@[9] == rb@[9],
        a.card_present == b.card_present ==> ra@[10] == rb@[10],
        a.unknown_merchant == b.unknown_merchant ==> ra@[11] == rb@[11],
        a.mcc_bytes() == b.mcc_bytes() ==> ra@[12] == rb@[12],
        a.merchant_avg_amount == b.merchant_avg_amount ==> ra@[13] == rb@[13],
{
}

/// A coordinate tells its own fields apart: transactions that differ there have different
/// coordinates. The times and distances from the last transaction count only where there is one.
pub proof fn law_fields_told_apart(
    a: &TxInput,
    b: &TxInput,
    norm: &Normalization,
    ra: [Feature; DIM],
    rb: [Feature; DIM],
)
    requires
        call_ensures(normalized_vector, (a, norm), ra),
        call_ensures(normalized_vector, (b, norm), rb),
    ensures
        ra@[0] == rb@[0] ==> a.amount == b.amount,
        ra@[1] == rb@[1] ==> a.installments == b.installments,
        ra@[2] == rb@[2] ==> a.amount == b.amount,
        ra@[3] == rb@[3] ==> a.hour_of_day == b.hour_of_day,
        ra@[4] == rb@[4] ==> a.day_of_week == b.day_of_week,
        ra@[5] == rb@[5] ==> a.has_last_tx == b.has_last_tx && (a.has_last_tx
            ==> a.minutes_since_last_tx == b.minutes_since_last_tx),
        ra@[6] == rb@[6] ==> a.has_last_tx == b.has_last_tx && (a.has_last_tx
            ==> a.km_from_last_tx == b.km_from_last_tx),
        ra@[7] == rb@[7] ==> a.km_from_home == b.km_from_home,
        ra@[8] == rb@[8] ==> a.tx_count_24h == b.tx_count_24h,
        ra@[9] == rb@[9] ==> a.is_online == b.is_online,
        ra@[10] == rb@[10] ==> a.card_present == b.card_present,
        ra@[11] == rb@[11] ==> a.unknown_merchant == b.unknown_merchant,
        ra@[13] == rb@[13] ==> a.merchant_avg_amount == b.merchant_avg_amount,
{
}

/// The coordinates that are shares: of which number, and of which limit.
pub proof fn law_shares(tx: &TxInput, norm: &Normalization, r: [Feature; DIM])
    requires
        call_ensures(normalized_vector, (tx, norm), r),
    ensures
        r@[0] == (Feature::Share { value: tx.amount, limit: norm.max_amount }),
        r@[1] == (Feature::Share { value: tx.installments, limit: norm.max_installments }),
        r@[7] == (Feature::Share { value: tx.km_from_home, limit: norm.max_km }),
        r@[8] == (Feature::Share { value: tx.tx_count_24h, limit: norm.max_tx_count_24h }),
        r@[13] == (Feature::Share {
            value: tx.merchant_avg_amount,
            limit: norm.max_merchant_avg_amount,
        }),
        r@[3] == (Feature::WholePart { part: tx.hour_of_day, whole: 23 }),
        r@[4] == (Feature::WholePart { part: tx.day_of_week, whole: 6 }),
{
}

/// The amount is set against the customer's average where that is above zero, infinity too, and
/// else taken by itself.
pub proof fn law_against_average(tx: &TxInput, norm: &Normalization, r: [Feature; DIM])
    requires
        call_ensures(normalized_vector, (tx, norm), r),
    ensures
        tx.customer_avg_amount.bits == 0x7ff0_0000_0000_0000 || (has_value(tx.customer_avg_amount)
            && units(tx.customer_avg_amount) > 0) ==> r@[2] == (Feature::RelativeShare {
            value: tx.amount,
            base: tx.customer_avg_amount,
            limit: norm.amount_vs_avg_ratio,
        }),
        tx.customer_avg_amount.bits != 0x7ff0_0000_0000_0000 && !(has_value(
            tx.customer_avg_amount,
        ) && units(tx.customer_avg_amount) > 0) ==> r@[2] == (Feature::Share {
            value: tx.amount,
            limit: norm.amount_vs_avg_ratio,
        }),
{
    lemma_units_of_constants();
    law_less_by_value(Double { bits: 0 }, tx.customer_avg_amount);
    law_less_by_value(tx.customer_avg_amount, tx.customer_avg_amount);
}

/// Time and distance from the last transaction are shares where there is one, and minus one
/// where there is none.
pub proof fn law_since_last(tx: &TxInput, norm: &Normalization, r: [Feature; DIM])
    requires
        call_ensures(normalized_vector, (tx, norm), r),
    ensures
        tx.has_last_tx ==> r@[5] == (Feature::Share {
            value: tx.minutes_since_last_tx,
            limit: norm.max_minutes,
        }) && r@[6] == (Feature::Share { value: tx.km_from_last_tx, limit: norm.max_km }),
        !tx.has_last_tx ==> r@[5] == Feature::Exact(Double { bits: 0xbff0_0000_0000_0000 })
            && r@[6] == Feature::Exact(Double { bits: 0xbff0_0000_0000_0000 }),
{
}

/// The risk is the one that the table has for the text of the code, where it has one and that
/// lies from 0 to 1, and a half where it has none.
pub proof fn law_risk_looked_up(
    tx: &TxInput,
    norm: &Normalization,
    r: [Feature; DIM],
    code: Seq<char>,
)
    requires
        call_ensures(normalized_vector, (tx, norm), r),
        tx.mcc_bytes() == encode_utf8(code),
    ensures
        !norm.mcc_risk@.contains_key(code) ==> r@[12] == Feature::Exact(
            Double { bits: 0x3fe0_0000_0000_0000 },
        ),
        norm.mcc_risk@.contains_key(code) && has_value(norm.mcc_risk@[code]) && 0 <= units(
            norm.mcc_risk@[code],
        ) <= one_unit() ==> r@[12] == Feature::Exact(norm.mcc_risk@[code]),
        norm.mcc_risk@.contains_key(code) && norm.mcc_risk@[code].bits == 0x7ff0_0000_0000_0000
            ==> r@[12] == Feature::Exact(Double { bits: 0x3ff0_0000_0000_0000 }),
        norm.mcc_risk@.contains_key(code) && norm.mcc_risk@[code].bits == 0xfff0_0000_0000_0000
            ==> r@[12] == Feature::Exact(Double { bits: 0 }),
        norm.mcc_risk@.contains_key(code) && has_value(norm.mcc_risk@[code]) && units(
            norm.mcc_risk@[code],
        ) < 0 ==> r@[12] == Feature::Exact(Double { bits: 0 }),
        norm.mcc_risk@.contains_key(code) && has_value(norm.mcc_risk@[code]) && units(
            norm.mcc_risk@[code],
        ) > one_unit() ==> r@[12] == Feature::Exact(Double { bits: 0x3ff0_0000_0000_0000 }),
{
    encode_utf8_valid_utf8(code);
    encode_utf8_decode_utf8(code);
    let risk = norm.mcc_risk@[code];
    lemma_units_of_constants();
    law_less_by_value(risk, Double { bits: 0 });
    law_less_by_value(Double { bits: 0 }, risk);
    law_less_by_value(risk, Double { bits: 0x3ff0_0000_0000_0000 });
    law_less_by_value(Double { bits: 0x3ff0_0000_0000_0000 }, risk);
}

/// A code that is no text is looked up as the empty one.
pub proof fn law_risk_without_text(
    a: &TxInput,
    b: &TxInput,
    norm: &Normalization,
    ra: [Feature; DIM],
    rb: [Feature; DIM],
)
    requires
        call_ensures(normalized_vector, (a, norm), ra),
        call_ensures(normalized_vector, (b, norm), rb),
        !valid_utf8(a.mcc_bytes()),
        b.mcc_len == 0,
    ensures
        ra@[12] == rb@[12],
{
    assert(b.mcc_bytes() =~= Seq::<u8>::empty());
    assert(encode_utf8(Seq::<char>::empty()) =~= Seq::<u8>::empty());
    encode_utf8_valid_utf8(Seq::<char>::empty());
    encode_utf8_decode_utf8(Seq::<char>::empty());
}

/// A share comes out as the quotient where that lies from 0 to 1, and never leaves this range; a
/// coordinate that is no share does not depend on the quotient.
pub proof fn law_settled(f: Feature, quotient: Double, r: Double)
    requires
        call_ensures(Feature::settle, (&f, quotient), r),
    ensures
        f matches Feature::Exact(value) ==> r == value,
        !(f is Exact) ==> has_value(r) && 0 <= units(r) <= one_unit(),
        !(f is Exact) && has_value(quotient) && 0 <= units(quotient) <= one_unit() ==> r
            == quotient,
        !(f is Exact) && has_value(quotient) && units(quotient) > one_unit() ==> units(r)
            == one_unit(),
        !(f is Exact) && (!has_value(quotient) || units(quotient) < 0) ==> units(r) == 0,
{
    if !(f is Exact) {
        lemma_unit_share(quotient);
    }
}

/// A value from 0 to 1 is quantized to its share of the scale, one below 0 to the scale below
/// zero, one above 1 to the whole scale, and what has no value to 0.
pub proof fn law_quantized(value: Double, scale: i64, r: Quantized)
    requires
        call_ensures(quantize_normalized, (value, scale), r),
        scale > i64::MIN,
    ensures
        !has_value(value) ==> r == Quantized::Whole(0),
        has_value(value) && units(value) < 0 ==> (r matches Quantized::Whole(n) && n == -scale),
        has_value(value) && 0 <= units(value) <= one_unit() ==> r == (Quantized::Scaled {
            share: value,
            scale,
        }),
        has_value(value) && units(value) > one_unit() ==> (r matches Quantized::Scaled {
            share,
            scale: s,
        } && s == scale && units(share) == one_unit()),
{
    lemma_units_of_constants();
    law_less_by_value(value, Double { bits: 0 });
    law_less_by_value(Double { bits: 0 }, value);
    lemma_unit_share(value);
}

/// A limit of the configuration is kept where its value is above zero; the scale is kept from
/// 128 on, and is 128 below that.
pub proof fn law_limits_kept(limits: Limits, r: Normalization)
    requires
        call_ensures(Normalization::from_json, (limits,), r),
    ensures
        has_value(limits.max_amount) && units(limits.max_amount) > 0 ==> r.max_amount
            == limits.max_amount,
        has_value(limits.max_installments) && units(limits.max_installments) > 0
            ==> r.max_installments == limits.max_installments,
        has_value(limits.amount_vs_avg_ratio) && units(limits.amount_vs_avg_ratio) > 0
            ==> r.amount_vs_avg_ratio == limits.amount_vs_avg_ratio,
        has_value(limits.max_minutes) && units(limits.max_minutes) > 0 ==> r.max_minutes
            == limits.max_minutes,
        has_value(limits.max_km) && units(limits.max_km) > 0 ==> r.max_km == limits.max_km,
        has_value(limits.max_tx_count_24h) && units(limits.max_tx_count_24h) > 0
            ==> r.max_tx_count_24h == limits.max_tx_count_24h,
        has_value(limits.max_merchant_avg_amount) && units(limits.max_merchant_avg_amount) > 0
            ==> r.max_merchant_avg_amount == limits.max_merchant_avg_amount,
        limits.scale matches Some(scale) ==> r.scale >= 128 && r.scale >= scale && (r.scale == scale
            || r.scale == 128),
        limits.scale is None ==> r.scale == 32_767,
{
    let zero = Double { bits: 0 };
    lemma_units_of_constants();
    law_less_by_value(limits.max_amount, zero);
    law_less_by_value(zero, limits.max_amount);
    law_less_by_value(limits.max_installments, zero);
    law_less_by_value(zero, limits.max_installments);
    law_less_by_value(limits.amount_vs_avg_ratio, zero);
    law_less_by_value(zero, limits.amount_vs_avg_ratio);
    law_less_by_value(limits.max_minutes, zero);
    law_less_by_value(zero, limits.max_minutes);
    law_less_by_value(limits.max_km, zero);
    law_less_by_value(zero, limits.max_km);
    law_less_by_value(limits.max_tx_count_24h, zero);
    law_less_by_value(zero, limits.max_tx_count_24h);
    law_less_by_value(limits.max_merchant_avg_amount, zero);
    law_less_by_value(zero, limits.max_merchant_avg_amount);
}

proof fn lemma_whole(bits: u64, scale: nat, n: int)
    requires
        bits < 0x7ff0_0000_0000_0000,
        bits / 0x10_0000_0000_0000 == 1023 + scale,
        (0x10_0000_0000_0000 + bits % 0x10_0000_0000_0000) * pow2(scale) == n
            * 0x10_0000_0000_0000,
    ensures
        units(Double { bits }) == n * one_unit(),
{
    let significand = 0x10_0000_0000_0000 + bits % 0x10_0000_0000_0000;
    let (p, q) = (pow2(scale) as int, pow2(1022) as int);
    lemma_pow2_adds(scale, 1022);
    assert(double_units(bits as int) == significand * (p * q));
    assert(significand * (p * q) == n * (0x10_0000_0000_0000 * q)) by (nonlinear_arith)
        requires
            significand * p == n * 0x10_0000_0000_0000,
    ;
}

/// A limit whose value is not above zero gives way to the default: 10 000 for amounts, 12
/// installments, 10 times the average, 1 440 minutes, 1 000 kilometres and 20 transactions.
pub proof fn law_limits_default(limits: Limits, r: Normalization)
    requires
        call_ensures(Normalization::from_json, (limits,), r),
    ensures
        !(has_value(limits.max_amount) && units(limits.max_amount) > 0) ==> units(r.max_amount)
            == 10_000 * one_unit(),
        !(has_value(limits.max_installments) && units(limits.max_installments) > 0) ==> units(
            r.max_installments,
        ) == 12 * one_unit(),
        !(has_value(limits.amount_vs_avg_ratio) && units(limits.amount_vs_avg_ratio) > 0)
            ==> units(r.amount_vs_avg_ratio) == 10 * one_unit(),
        !(has_value(limits.max_minutes) && units(limits.max_minutes) > 0) ==> units(r.max_minutes)
            == 1_440 * one_unit(),
        !(has_value(limits.max_km) && units(limits.max_km) > 0) ==> units(r.max_km) == 1_000
            * one_unit(),
        !(has_value(limits.max_tx_count_24h) && units(limits.max_tx_count_24h) > 0) ==> units(
            r.max_tx_count_24h,
        ) == 20 * one_unit(),
        !(has_value(limits.max_merchant_avg_amount) && units(limits.max_merchant_avg_amount) > 0)
            ==> units(r.max_merchant_avg_amount) == 10_000 * one_unit(),
{
    let zero = Double { bits: 0 };
    lemma_units_of_constants();
    law_less_by_value(limits.max_amount, zero);
    law_less_by_value(zero, limits.max_amount);
    law_less_by_value(limits.max_installments, zero);
    law_less_by_value(zero, limits.max_installments);
    law_less_by_value(limits.amount_vs_avg_ratio, zero);
    law_less_by_value(zero, limits.amount_vs_avg_ratio);
    law_less_by_value(limits.max_minutes, zero);
    law_less_by_value(zero, limits.max_minutes);
    law_less_by_value(limits.max_km, zero);
    law_less_by_value(zero, limits.max_km);
    law_less_by_value(limits.max_tx_count_24h, zero);
    law_less_by_value(zero, limits.max_tx_count_24h);
    law_less_by_value(limits.max_merchant_avg_amount, zero);
    law_less_by_value(zero, limits.max_merchant_avg_amount);
    lemma2_to64();
    lemma_whole(0x40c3_8800_0000_0000, 13, 10_000);
    lemma_whole(0x4028_0000_0000_0000, 3, 12);
    lemma_whole(0x4024_0000_0000_0000, 3, 10);
    lemma_whole(0x4096_8000_0000_0000, 10, 1_440);
    lemma_whole(0x408f_4000_0000_0000, 9, 1_000);
    lemma_whole(0x4034_0000_0000_0000, 4, 20);
}

/// The default limits are those that a configuration without any usable limit comes to.
pub proof fn law_default_configured(
    limits: Limits,
    risks: Option<RiskTable>,
    r: Normalization,
    plain: Normalization,
)
    requires
        call_ensures(Normalization::configured, (None, risks), r),
        call_ensures(Normalization::from_json, (limits,), plain),
        limits.scale is None,
        !has_value(limits.max_amount),
        !has_value(limits.max_installments),
        !has_value(limits.amount_vs_avg_ratio),
        !has_value(limits.max_minutes),
        !has_value(limits.max_km),
        !has_value(limits.max_tx_count_24h),
        !has_value(limits.max_merchant_avg_amount),
    ensures
        r.max_amount == plain.max_amount,
        r.max_installments == plain.max_installments,
        r.amount_vs_avg_ratio == plain.amount_vs_avg_ratio,
        r.max_minutes == plain.max_minutes,
        r.max_km == plain.max_km,
        r.max_tx_count_24h == plain.max_tx_count_24h,
        r.max_merchant_avg_amount == plain.max_merchant_avg_amount,
        r.scale == plain.scale,
        risks matches Some(table) ==> r.mcc_risk@ == table@,
        risks is None ==> r.mcc_risk@ == plain.mcc_risk@,
{
}

/// A number is the nearest one to `percent` hundredths, as far as the width of a significand
/// tells.
pub open spec fn is_percent(v: Double, percent: int) -> bool {
    &&& has_value(v)
    &&& -percent * one_unit() <= (100 * units(v) - percent * one_unit()) * 0x20_0000_0000_0000
        <= percent * one_unit()
}

proof fn lemma_percent(bits: u64, scale: nat, percent: int)
    requires
        scale < 60,
        bits < 0x7ff0_0000_0000_0000,
        bits / 0x10_0000_0000_0000 + scale == 1023,
        -percent * 0x10_0000_0000_0000 * pow2(scale) <= (100 * (0x10_0000_0000_0000 + bits
            % 0x10_0000_0000_0000) - percent * 0x10_0000_0000_0000 * pow2(scale))
            * 0x20_0000_0000_0000 <= percent * 0x10_0000_0000_0000 * pow2(scale),
    ensures
        is_percent(Double { bits }, percent),
{
    let s = 0x10_0000_0000_0000 + bits % 0x10_0000_0000_0000;
    let (p, q) = (pow2(scale) as int, pow2((1022 - scale) as nat) as int);
    lemma_pow2_adds(scale, (1022 - scale) as nat);
    lemma_pow2_pos((1022 - scale) as nat);
    let whole = 0x10_0000_0000_0000 * p;
    assert(one_unit() == whole * q) by (nonlinear_arith)
        requires
            one_unit() == 0x10_0000_0000_0000 * (p * q),
            whole == 0x10_0000_0000_0000 * p,
    ;
    assert(double_units(bits as int) == s * q);
    let gap = 100 * s - percent * whole;
    assert(percent * 0x10_0000_0000_0000 * p == percent * whole) by (nonlinear_arith)
        requires
            whole == 0x10_0000_0000_0000 * p,
    ;
    assert(-percent * 0x10_0000_0000_0000 * p == -(percent * whole)) by (nonlinear_arith)
        requires
            whole == 0x10_0000_0000_0000 * p,
    ;
    let big = gap * 0x20_0000_0000_0000;
    assert(-(percent * whole) * q <= big * q <= (percent * whole) * q) by (nonlinear_arith)
        requires
            -(percent * whole) <= big <= percent * whole,
            q > 0,
    ;
    assert((percent * whole) * q == percent * (whole * q)) by (nonlinear_arith);
    assert(-(percent * whole) * q == -percent * (whole * q)) by (nonlinear_arith);
    assert(big * q == (100 * (s * q) - percent * (whole * q)) * 0x20_0000_0000_0000)
        by (nonlinear_arith)
        requires
            big == (100 * s - percent * whole) * 0x20_0000_0000_0000,
    ;
}

/// The codes that have a risk by default, each with its risk in hundredths.
pub proof fn law_default_risks(r: RiskTable)
    requires
        call_ensures(default_mcc_risk, (), r),
    ensures
        r@.contains_key("5411"@) && is_percent(r@["5411"@], 15),
        r@.contains_key("5812"@) && is_percent(r@["5812"@], 30),
        r@.contains_key("5912"@) && is_percent(r@["5912"@], 20),
        r@.contains_key("5944"@) && is_percent(r@["5944"@], 45),
        r@.contains_key("7801"@) && is_percent(r@["7801"@], 80),
        r@.contains_key("7802"@) && is_percent(r@["7802"@], 75),
        r@.contains_key("7995"@) && is_percent(r@["7995"@], 85),
        r@.contains_key("4511"@) && is_percent(r@["4511"@], 35),
        r@.contains_key("5311"@) && is_percent(r@["5311"@], 25),
        r@.contains_key("5999"@) && is_percent(r@["5999"@], 50),
        forall|code: Seq<char>| #[trigger]
            r@.contains_key(code) ==> code == "5411"@
                || code == "5812"@
                || code == "5912"@
                || code == "5944"@
                || code == "7801"@
                || code == "7802"@
                || code == "7995"@
                || code == "4511"@
                || code == "5311"@
                || code == "5999"@,
{
    reveal_strlit("5411");
    reveal_strlit("5812");
    reveal_strlit("5912");
    reveal_strlit("5944");
    reveal_strlit("7801");
    reveal_strlit("7802");
    reveal_strlit("7995");
    reveal_strlit("4511");
    reveal_strlit("5311");
    reveal_strlit("5999");
    assert("5411"@[1] != "5812"@[1]);
    assert("5411"@[1] != "5912"@[1]);
    assert("5411"@[1] != "5944"@[1]);
    assert("5411"@[0] != "7801"@[0]);
    assert("5411"@[0] != "7802"@[0]);
    assert("5411"@[0] != "7995"@[0]);
    assert("5411"@[0] != "4511"@[0]);
    assert("5411"@[1] != "5311"@[1]);
    assert("5411"@[1] != "5999"@[1]);
    assert("5812"@[1] != "5912"@[1]);
    assert("5812"@[1] != "5944"@[1]);
    assert("5812"@[0] != "7801"@[0]);
    assert("5812"@[0] != "7802"@[0]);
    assert("5812"@[0] != "7995"@[0]);
    assert("5812"@[0] != "4511"@[0]);
    assert("5812"@[1] != "5311"@[1]);
    assert("5812"@[1] != "5999"@[1]);
    assert("5912"@[2] != "5944"@[2]);
    assert("5912"@[0] != "7801"@[0]);
    assert("5912"@[0] != "7802"@[0]);
    assert("5912"@[0] != "7995"@[0]);
    assert("5912"@[0] != "4511"@[0]);
    assert("5912"@[1] != "5311"@[1]);
    assert("5912"@[2] != "5999"@[2]);
    assert("5944"@[0] != "7801"@[0]);
    assert("5944"@[0] != "7802"@[0]);
    assert("5944"@[0] != "7995"@[0]);
    assert("5944"@[0] != "4511"@[0]);
    assert("5944"@[1] != "5311"@[1]);
    assert("5944"@[2] != "5999"@[2]);
    assert("7801"@[3] != "7802"@[3]);
    assert("7801"@[1] != "7995"@[1]);
    assert("7801"@[0] != "4511"@[0]);
    assert("7801"@[0] != "5311"@[0]);
    assert("7801"@[0] != "5999"@[0]);
    assert("7802"@[1] != "7995"@[1]);
    assert("7802"@[0] != "4511"@[0]);
    assert("7802"@[0] != "5311"@[0]);
    assert("7802"@[0] != "5999"@[0]);
    assert("7995"@[0] != "4511"@[0]);
    assert("7995"@[0] != "5311"@[0]);
    assert("7995"@[0] != "5999"@[0]);
    assert("4511"@[0] != "5311"@[0]);
    assert("4511"@[0] != "5999"@[0]);
    assert("5311"@[1] != "5999"@[1]);
    lemma2_to64();
    lemma_percent(0x3fc3_3333_3333_3333, 3, 15);
    lemma_percent(0x3fd3_3333_3333_3333, 2, 30);
    lemma_percent(0x3fc9_9999_9999_999a, 3, 20);
    lemma_percent(0x3fdc_cccc_cccc_cccd, 2, 45);
    lemma_percent(0x3fe9_9999_9999_999a, 1, 80);
    lemma_percent(0x3fe8_0000_0000_0000, 1, 75);
    lemma_percent(0x3feb_3333_3333_3333, 1, 85);
    lemma_percent(0x3fd6_6666_6666_6666, 2, 35);
    lemma_percent(0x3fd0_0000_0000_0000, 2, 25);
    lemma_percent(0x3fe0_0000_0000_0000, 1, 50);
}

/// Whatever the configuration states, no limit is left that could not be divided by: each has a
/// value above zero.
pub proof fn law_limits_positive(
    limits: Option<Limits>,
    risks: Option<RiskTable>,
    r: Normalization,
)
    requires
        call_ensures(Normalization::configured, (limits, risks), r),
    ensures
        has_value(r.max_amount) && units(r.max_amount) > 0,
        has_value(r.max_installments) && units(r.max_installments) > 0,
        has_value(r.amount_vs_avg_ratio) && units(r.amount_vs_avg_ratio) > 0,
        has_value(r.max_minutes) && units(r.max_minutes) > 0,
        has_value(r.max_km) && units(r.max_km) > 0,
        has_value(r.max_tx_count_24h) && units(r.max_tx_count_24h) > 0,
        has_value(r.max_merchant_avg_amount) && units(r.max_merchant_avg_amount) > 0,
{
    let zero = Double { bits: 0 };
    lemma_units_of_constants();
    law_less_by_value(zero, r.max_amount);
    law_less_by_value(r.max_amount, zero);
    law_less_by_value(zero, r.max_installments);
    law_less_by_value(r.max_installments, zero);
    law_less_by_value(zero, r.amount_vs_avg_ratio);
    law_less_by_value(r.amount_vs_avg_ratio, zero);
    law_less_by_value(zero, r.max_minutes);
    law_less_by_value(r.max_minutes, zero);
    law_less_by_value(zero, r.max_km);
    law_less_by_value(r.max_km, zero);
    law_less_by_value(zero, r.max_tx_count_24h);
    law_less_by_value(r.max_tx_count_24h, zero);
    law_less_by_value(zero, r.max_merchant_avg_amount);
    law_less_by_value(r.max_merchant_avg_amount, zero);
}

/// A configuration with limits comes to what its limits come to by themselves, but for the
/// risks; and the risks are the configured ones wherever there are any.
pub proof fn law_configured(
    limits: Limits,
    risks: Option<RiskTable>,
    r: Normalization,
    alone: Normalization,
)
    requires
        call_ensures(Normalization::configured, (Some(limits), risks), r),
        call_ensures(Normalization::from_json, (limits,), alone),
    ensures
        r.max_amount == alone.max_amount,
        r.max_installments == alone.max_installments,
        r.amount_vs_avg_ratio == alone.amount_vs_avg_ratio,
        r.max_minutes == alone.max_minutes,
        r.max_km == alone.max_km,
        r.max_tx_count_24h == alone.max_tx_count_24h,
        r.max_merchant_avg_amount == alone.max_merchant_avg_amount,
        r.scale == alone.scale,
        risks matches Some(table) ==> r.mcc_risk@ == table@,
        risks is None ==> r.mcc_risk@ == alone.mcc_risk@,
{
}

/// The risk of a transaction's category is the one in its feature vector.
pub proof fn law_risk_is_feature(
    tx: &TxInput,
    norm: &Normalization,
    r: [Feature; DIM],
    risk: Double,
)
    requires
        call_ensures(normalized_vector, (tx, norm), r),
        call_ensures(Normalization::mcc_risk, (norm, tx), risk),
    ensures
        r@[12] == Feature::Exact(risk),
{
}

/// A reference value is quantized to the scale of the configuration.
pub proof fn law_reference_scale(
    norm: &Normalization,
    value: Double,
    scale: i64,
    r: Quantized,
    own: Quantized,
)
    requires
        call_ensures(Normalization::scale, (norm,), scale),
        call_ensures(Normalization::quantize_reference_value, (norm, value), r),
        call_ensures(quantize_normalized, (value, scale), own),
    ensures
        scale == norm.scale,
        r == own,
{
}

/// A risk that was put into a table is the one that the table has for its code, and those of other
/// codes stay as they were; a new table has none.
pub proof fn law_risk_table(
    table: &mut RiskTable,
    code: String,
    risk: Double,
    other: &str,
    before: Option<Double>,
    after: Option<Double>,
    fresh: RiskTable,
    none: Option<Double>,
)
    requires
        call_ensures(RiskTable::get, (&*old(table), other), before),
        call_ensures(RiskTable::insert, (table, code, risk), ()),
        call_ensures(RiskTable::get, (&*final(table), other), after),
        call_ensures(RiskTable::new, (), fresh),
        call_ensures(RiskTable::get, (&fresh, other), none),
    ensures
        other@ == code@ ==> after == Some(risk),
        other@ != code@ ==> after == before,
        none is None,
{
}

} // verus!
