//! The features of a transaction, and how they are brought to a common scale.
//!
//! A feature is planned here: which number is divided by which, and what becomes of the
//! quotient. The quotient itself is computed elsewhere.
use vstd::hash_map::StringHashMap;
use vstd::prelude::*;
use vstd::slice::slice_subrange;
use vstd::string::StringSliceAdditionalSpecFns;
use vstd::utf8::{decode_utf8, encode_utf8_decode_utf8, valid_utf8};

use crate::ieee::{Double, DOUBLE_HALF, DOUBLE_MINUS_ONE, DOUBLE_ONE, DOUBLE_ZERO};
use crate::types::{TxInput, DEFAULT_SCALE, DIM, MCC_BUF};

verus! {

/// A finite number above zero.
pub open spec fn is_positive(v: Double) -> bool {
    v.finite() && (Double { bits: DOUBLE_ZERO }).less(v)
}

/// The number if it is positive, or else the fallback.
pub open spec fn positive_else(v: Double, fallback: Double) -> Double {
    if is_positive(v) {
        v
    } else {
        fallback
    }
}

/// The number if it is finite and above zero, or else the fallback.
pub fn positive_or(value: Double, fallback: Double) -> (r: Double)
    ensures
        r == positive_else(value, fallback),
{
    if value.is_finite() && (Double { bits: DOUBLE_ZERO }).lt(value) {
        value
    } else {
        fallback
    }
}

/// The least scale of quantized values.
pub const MIN_SCALE: i64 = 128;

/// 10 000.
pub const DEFAULT_MAX_AMOUNT: u64 = 0x40c3_8800_0000_0000;

/// 12.
pub const DEFAULT_MAX_INSTALLMENTS: u64 = 0x4028_0000_0000_0000;

/// 10.
pub const DEFAULT_AMOUNT_VS_AVG_RATIO: u64 = 0x4024_0000_0000_0000;

/// 1 440.
pub const DEFAULT_MAX_MINUTES: u64 = 0x4096_8000_0000_0000;

/// 1 000.
pub const DEFAULT_MAX_KM: u64 = 0x408f_4000_0000_0000;

/// 20.
pub const DEFAULT_MAX_TX_COUNT_24H: u64 = 0x4034_0000_0000_0000;

/// 10 000.
pub const DEFAULT_MAX_MERCHANT_AVG_AMOUNT: u64 = 0x40c3_8800_0000_0000;

/// The risk of each merchant category code.
pub struct RiskTable {
    risks: StringHashMap<Double>,
}

impl View for RiskTable {
    type V = Map<Seq<char>, Double>;

    closed spec fn view(&self) -> Map<Seq<char>, Double> {
        self.risks@
    }
}

impl RiskTable {
    pub fn new() -> (r: Self)
        ensures
            r@ == Map::<Seq<char>, Double>::empty(),
    {
        RiskTable { risks: StringHashMap::new() }
    }

    /// Puts in the risk of a code, in place of the one that it had.
    pub fn insert(&mut self, code: String, risk: Double)
        ensures
            final(self)@ == old(self)@.insert(code@, risk),
    {
        self.risks.insert(code, risk);
    }

    /// The risk of a code, if the table has one.
    pub fn get(&self, code: &str) -> (r: Option<Double>)
        ensures
            r == if self@.contains_key(code@) {
                Some(self@[code@])
            } else {
                None
            },
    {
        match self.risks.get(code) {
            Some(risk) => Some(*risk),
            None => None,
        }
    }
}

/// The risks unless the configuration brings others.
pub open spec fn default_risks() -> Map<Seq<char>, Double> {
    Map::<Seq<char>, Double>::empty()
        .insert("5411"@, Double { bits: 0x3fc3_3333_3333_3333 })
        .insert("5812"@, Double { bits: 0x3fd3_3333_3333_3333 })
        .insert("5912"@, Double { bits: 0x3fc9_9999_9999_999a })
        .insert("5944"@, Double { bits: 0x3fdc_cccc_cccc_cccd })
        .insert("7801"@, Double { bits: 0x3fe9_9999_9999_999a })
        .insert("7802"@, Double { bits: 0x3fe8_0000_0000_0000 })
        .insert("7995"@, Double { bits: 0x3feb_3333_3333_3333 })
        .insert("4511"@, Double { bits: 0x3fd6_6666_6666_6666 })
        .insert("5311"@, Double { bits: 0x3fd0_0000_0000_0000 })
        .insert("5999"@, Double { bits: 0x3fe0_0000_0000_0000 })
}

/// The risks unless the configuration brings others.
pub fn default_mcc_risk() -> (r: RiskTable)
    ensures
        r@ == default_risks(),
{
    let mut table = RiskTable::new();
    table.insert("5411".to_owned(), Double { bits: 0x3fc3_3333_3333_3333 });  // 0.15
    table.insert("5812".to_owned(), Double { bits: 0x3fd3_3333_3333_3333 });  // 0.30
    table.insert("5912".to_owned(), Double { bits: 0x3fc9_9999_9999_999a });  // 0.20
    table.insert("5944".to_owned(), Double { bits: 0x3fdc_cccc_cccc_cccd });  // 0.45
    table.insert("7801".to_owned(), Double { bits: 0x3fe9_9999_9999_999a });  // 0.80
    table.insert("7802".to_owned(), Double { bits: 0x3fe8_0000_0000_0000 });  // 0.75
    table.insert("7995".to_owned(), Double { bits: 0x3feb_3333_3333_3333 });  // 0.85
    table.insert("4511".to_owned(), Double { bits: 0x3fd6_6666_6666_6666 });  // 0.35
    table.insert("5311".to_owned(), Double { bits: 0x3fd0_0000_0000_0000 });  // 0.25
    table.insert("5999".to_owned(), Double { bits: 0x3fe0_0000_0000_0000 });  // 0.50
    table
}

/// The limits as a configuration states them.
#[derive(Clone, Copy, Debug)]
pub struct Limits {
    pub max_amount: Double,
    pub max_installments: Double,
    pub amount_vs_avg_ratio: Double,
    pub max_minutes: Double,
    pub max_km: Double,
    pub max_tx_count_24h: Double,
    pub max_merchant_avg_amount: Double,
    pub scale: Option<i64>,
}

/// What features are divided by, the scale of quantized values, and the risk table.
pub struct Normalization {
    pub max_amount: Double,
    pub max_installments: Double,
    pub amount_vs_avg_ratio: Double,
    pub max_minutes: Double,
    pub max_km: Double,
    pub max_tx_count_24h: Double,
    pub max_merchant_avg_amount: Double,
    pub scale: i64,
    pub mcc_risk: RiskTable,
}

/// The text that a code is looked up by: none at all where its bytes are no text.
pub open spec fn risk_key(code: Seq<u8>) -> Seq<char> {
    if valid_utf8(code) {
        decode_utf8(code)
    } else {
        Seq::empty()
    }
}

/// The risk of a code, held between 0 and 1; a code that is not in the table is even.
pub open spec fn risk_of(table: Map<Seq<char>, Double>, key: Seq<char>) -> Double {
    if table.contains_key(key) {
        table[key].in_unit()
    } else {
        Double { bits: DOUBLE_HALF }
    }
}

/// The text that the bytes encode, by `std::str::from_utf8`: there is one exactly where the
/// bytes are well-formed UTF-8, and its bytes are these.
#[verifier::external_body]
fn utf8_text(bytes: &[u8]) -> (r: Option<&str>)
    ensures
        r is Some <==> valid_utf8(bytes@),
        r matches Some(text) ==> text.spec_bytes() == bytes@,
{
    std::str::from_utf8(bytes).ok()
}

impl Normalization {
    /// Every limit can be divided by, and the scale is not too coarse.
    pub open spec fn wf(&self) -> bool {
        &&& is_positive(self.max_amount)
        &&& is_positive(self.max_installments)
        &&& is_positive(self.amount_vs_avg_ratio)
        &&& is_positive(self.max_minutes)
        &&& is_positive(self.max_km)
        &&& is_positive(self.max_tx_count_24h)
        &&& is_positive(self.max_merchant_avg_amount)
        &&& self.scale >= MIN_SCALE
    }

    pub fn scale(&self) -> (r: i64)
        ensures
            r == self.scale,
    {
        self.scale
    }

    /// The limits are those of a configuration; one that is not positive has its default, and
    /// the scale is held to the least.
    pub open spec fn is_from(&self, limits: Limits) -> bool {
        &&& self.max_amount == positive_else(
            limits.max_amount,
            Double { bits: DEFAULT_MAX_AMOUNT },
        )
        &&& self.max_installments == positive_else(
            limits.max_installments,
            Double { bits: DEFAULT_MAX_INSTALLMENTS },
        )
        &&& self.amount_vs_avg_ratio == positive_else(
            limits.amount_vs_avg_ratio,
            Double { bits: DEFAULT_AMOUNT_VS_AVG_RATIO },
        )
        &&& self.max_minutes == positive_else(
            limits.max_minutes,
            Double { bits: DEFAULT_MAX_MINUTES },
        )
        &&& self.max_km == positive_else(limits.max_km, Double { bits: DEFAULT_MAX_KM })
        &&& self.max_tx_count_24h == positive_else(
            limits.max_tx_count_24h,
            Double { bits: DEFAULT_MAX_TX_COUNT_24H },
        )
        &&& self.max_merchant_avg_amount == positive_else(
            limits.max_merchant_avg_amount,
            Double { bits: DEFAULT_MAX_MERCHANT_AVG_AMOUNT },
        )
        &&& self.scale == match limits.scale {
            Some(scale) => if scale < MIN_SCALE {
                MIN_SCALE
            } else {
                scale
            },
            None => DEFAULT_SCALE,
        }
    }

    /// Brings the limits of a configuration, with the default risks.
    pub fn from_json(limits: Limits) -> (r: Self)
        ensures
            r.wf(),
            r.is_from(limits),
            r.mcc_risk@ == default_risks(),
    {
        let scale: i64 = match limits.scale {
            Some(scale) => if scale < MIN_SCALE {
                MIN_SCALE
            } else {
                scale
            },
            None => DEFAULT_SCALE,
        };
        Normalization {
            max_amount: positive_or(limits.max_amount, Double { bits: DEFAULT_MAX_AMOUNT }),
            max_installments: positive_or(
                limits.max_installments,
                Double { bits: DEFAULT_MAX_INSTALLMENTS },
            ),
            amount_vs_avg_ratio: positive_or(
                limits.amount_vs_avg_ratio,
                Double { bits: DEFAULT_AMOUNT_VS_AVG_RATIO },
            ),
            max_minutes: positive_or(limits.max_minutes, Double { bits: DEFAULT_MAX_MINUTES }),
            max_km: positive_or(limits.max_km, Double { bits: DEFAULT_MAX_KM }),
            max_tx_count_24h: positive_or(
                limits.max_tx_count_24h,
                Double { bits: DEFAULT_MAX_TX_COUNT_24H },
            ),
            max_merchant_avg_amount: positive_or(
                limits.max_merchant_avg_amount,
                Double { bits: DEFAULT_MAX_MERCHANT_AVG_AMOUNT },
            ),
            scale,
            mcc_risk: default_mcc_risk(),
        }
    }

    /// What a configuration comes to: its limits, or the default ones where they could not be
    /// read, and its risks in place of the default ones where those could be read.
    pub fn configured(limits: Option<Limits>, risks: Option<RiskTable>) -> (r: Self)
        ensures
            r.wf(),
            r.is_from(
                match limits {
                    Some(limits) => limits,
                    None => default_limits(),
                },
            ),
            r.mcc_risk@ == match risks {
                Some(table) => table@,
                None => default_risks(),
            },
    {
        let mut r = match limits {
            Some(limits) => Normalization::from_json(limits),
            None => Normalization::default(),
        };
        if let Some(table) = risks {
            r.mcc_risk = table;
        }
        r
    }

    /// The risk of a transaction's merchant category code.
    pub fn mcc_risk(&self, tx: &TxInput) -> (r: Double)
        requires
            tx.mcc_len <= MCC_BUF,
        ensures
            r == risk_of(self.mcc_risk@, risk_key(tx.mcc_bytes())),
    {
        let code: &[u8] = slice_subrange(&tx.mcc, 0, tx.mcc_len as usize);
        assert(code@ =~= tx.mcc_bytes());
        let key: &str = match utf8_text(code) {
            Some(text) => {
                proof {
                    encode_utf8_decode_utf8(text@);
                }
                text
            },
            None => {
                proof {
                    reveal_strlit("");
                }
                assert(""@ =~= Seq::empty());
                ""
            },
        };
        match self.mcc_risk.get(key) {
            Some(risk) => risk.clamp_unit(),
            None => Double { bits: DOUBLE_HALF },
        }
    }
}

/// The default limits.
pub open spec fn default_limits() -> Limits {
    Limits {
        max_amount: Double { bits: DEFAULT_MAX_AMOUNT },
        max_installments: Double { bits: DEFAULT_MAX_INSTALLMENTS },
        amount_vs_avg_ratio: Double { bits: DEFAULT_AMOUNT_VS_AVG_RATIO },
        max_minutes: Double { bits: DEFAULT_MAX_MINUTES },
        max_km: Double { bits: DEFAULT_MAX_KM },
        max_tx_count_24h: Double { bits: DEFAULT_MAX_TX_COUNT_24H },
        max_merchant_avg_amount: Double { bits: DEFAULT_MAX_MERCHANT_AVG_AMOUNT },
        scale: None,
    }
}

impl Default for Normalization {
    fn default() -> (r: Self)
        ensures
            r.wf(),
            r.is_from(default_limits()),
            r.mcc_risk@ == default_risks(),
    {
        Normalization {
            max_amount: Double { bits: DEFAULT_MAX_AMOUNT },
            max_installments: Double { bits: DEFAULT_MAX_INSTALLMENTS },
            amount_vs_avg_ratio: Double { bits: DEFAULT_AMOUNT_VS_AVG_RATIO },
            max_minutes: Double { bits: DEFAULT_MAX_MINUTES },
            max_km: Double { bits: DEFAULT_MAX_KM },
            max_tx_count_24h: Double { bits: DEFAULT_MAX_TX_COUNT_24H },
            max_merchant_avg_amount: Double { bits: DEFAULT_MAX_MERCHANT_AVG_AMOUNT },
            scale: DEFAULT_SCALE,
            mcc_risk: default_mcc_risk(),
        }
    }
}

/// A number held between 0 and 1; what is not finite counts as 0.
pub open spec fn unit_share(v: Double) -> Double {
    if v.finite() {
        v.in_unit()
    } else {
        Double { bits: DOUBLE_ZERO }
    }
}

/// The number held between 0 and 1; what is not finite counts as 0.
pub fn clamp01(value: Double) -> (r: Double)
    ensures
        r == unit_share(value),
{
    if value.is_finite() {
        value.clamp_unit()
    } else {
        Double { bits: DOUBLE_ZERO }
    }
}

/// How a coordinate of the feature vector comes about.
#[derive(Clone, Copy, Debug, PartialEq, Eq, Structural)]
pub enum Feature {
    /// As the share `value / limit`.
    Share { value: Double, limit: Double },
    /// As the share `value / base / limit`.
    RelativeShare { value: Double, base: Double, limit: Double },
    /// As the share `part / whole` of small whole numbers.
    WholePart { part: u8, whole: u8 },
    /// As it is.
    Exact(Double),
}

impl Feature {
    /// The coordinate, given the quotient of a share: a share is held between 0 and 1.
    pub open spec fn coordinate(self, quotient: Double) -> Double {
        match self {
            Feature::Exact(value) => value,
            _ => unit_share(quotient),
        }
    }

    /// The coordinate, given the quotient of a share.
    pub fn settle(&self, quotient: Double) -> (r: Double)
        ensures
            r == self.coordinate(quotient),
    {
        match self {
            Feature::Exact(value) => *value,
            _ => clamp01(quotient),
        }
    }
}

/// One or zero.
pub open spec fn flag(set: bool) -> Feature {
    Feature::Exact(
        Double {
            bits: if set {
                DOUBLE_ONE
            } else {
                DOUBLE_ZERO
            },
        },
    )
}

/// A share that only a last transaction gives; minus one without one.
pub open spec fn since_last(has_last_tx: bool, value: Double, limit: Double) -> Feature {
    if has_last_tx {
        Feature::Share { value, limit }
    } else {
        Feature::Exact(Double { bits: DOUBLE_MINUS_ONE })
    }
}

/// The features of a transaction.
pub open spec fn features(tx: TxInput, norm: Normalization) -> Seq<Feature> {
    seq![
        Feature::Share { value: tx.amount, limit: norm.max_amount },
        Feature::Share { value: tx.installments, limit: norm.max_installments },
        if (Double { bits: DOUBLE_ZERO }).less(tx.customer_avg_amount) {
            Feature::RelativeShare {
                value: tx.amount,
                base: tx.customer_avg_amount,
                limit: norm.amount_vs_avg_ratio,
            }
        } else {
            Feature::Share { value: tx.amount, limit: norm.amount_vs_avg_ratio }
        },
        Feature::WholePart { part: tx.hour_of_day, whole: 23 },
        Feature::WholePart { part: tx.day_of_week, whole: 6 },
        since_last(tx.has_last_tx, tx.minutes_since_last_tx, norm.max_minutes),
        since_last(tx.has_last_tx, tx.km_from_last_tx, norm.max_km),
        Feature::Share { value: tx.km_from_home, limit: norm.max_km },
        Feature::Share { value: tx.tx_count_24h, limit: norm.max_tx_count_24h },
        flag(tx.is_online),
        flag(tx.card_present),
        flag(tx.unknown_merchant),
        Feature::Exact(risk_of(norm.mcc_risk@, risk_key(tx.mcc_bytes()))),
        Feature::Share {
            value: tx.merchant_avg_amount,
            limit: norm.max_merchant_avg_amount,
        },
    ]
}

fn flag_feature(set: bool) -> (r: Feature)
    ensures
        r == flag(set),
{
    let bits: u64 = if set {
        DOUBLE_ONE
    } else {
        DOUBLE_ZERO
    };
    Feature::Exact(Double { bits })
}

fn since_last_feature(has_last_tx: bool, value: Double, limit: Double) -> (r: Feature)
    ensures
        r == since_last(has_last_tx, value, limit),
{
    if has_last_tx {
        Feature::Share { value, limit }
    } else {
        Feature::Exact(Double { bits: DOUBLE_MINUS_ONE })
    }
}

/// The features of a transaction, coordinate by coordinate.
pub fn normalized_vector(tx: &TxInput, norm: &Normalization) -> (r: [Feature; DIM])
    requires
        tx.mcc_len <= MCC_BUF,
    ensures
        r@ == features(*tx, *norm),
{
    let zero = Double { bits: DOUBLE_ZERO };
    let amount_vs_avg = if zero.lt(tx.customer_avg_amount) {
        Feature::RelativeShare {
            value: tx.amount,
            base: tx.customer_avg_amount,
            limit: norm.amount_vs_avg_ratio,
        }
    } else {
        Feature::Share { value: tx.amount, limit: norm.amount_vs_avg_ratio }
    };
    let r: [Feature; DIM] = [
        Feature::Share { value: tx.amount, limit: norm.max_amount },
        Feature::Share { value: tx.installments, limit: norm.max_installments },
        amount_vs_avg,
        Feature::WholePart { part: tx.hour_of_day, whole: 23 },
        Feature::WholePart { part: tx.day_of_week, whole: 6 },
        since_last_feature(tx.has_last_tx, tx.minutes_since_last_tx, norm.max_minutes),
        since_last_feature(tx.has_last_tx, tx.km_from_last_tx, norm.max_km),
        Feature::Share { value: tx.km_from_home, limit: norm.max_km },
        Feature::Share { value: tx.tx_count_24h, limit: norm.max_tx_count_24h },
        flag_feature(tx.is_online),
        flag_feature(tx.card_present),
        flag_feature(tx.unknown_merchant),
        Feature::Exact(norm.mcc_risk(tx)),
        Feature::Share {
            value: tx.merchant_avg_amount,
            limit: norm.max_merchant_avg_amount,
        },
    ];
    assert(r@ =~= features(*tx, *norm));
    r
}

/// How a reference value is quantized.
#[derive(Clone, Copy, Debug, PartialEq, Eq, Structural)]
pub enum Quantized {
    /// To a number that does not depend on the value.
    Whole(i64),
    /// To the nearest whole number of the share times the scale.
    Scaled { share: Double, scale: i64 },
}

/// What is not finite becomes 0, what is negative the lowest value, and a share of the scale
/// anything else.
pub open spec fn quantized(value: Double, scale: i64) -> Quantized {
    if !value.finite() {
        Quantized::Whole(0)
    } else if value.less(Double { bits: DOUBLE_ZERO }) {
        Quantized::Whole((-scale) as i64)
    } else {
        Quantized::Scaled { share: unit_share(value), scale }
    }
}

/// How a value is quantized to a scale.
pub fn quantize_normalized(value: Double, scale: i64) -> (r: Quantized)
    requires
        scale > i64::MIN,
    ensures
        r == quantized(value, scale),
{
    if !value.is_finite() {
        return Quantized::Whole(0);
    }
    if value.lt(Double { bits: DOUBLE_ZERO }) {
        return Quantized::Whole(-scale);
    }
    Quantized::Scaled { share: clamp01(value), scale }
}

impl Normalization {
    /// How a reference value is quantized.
    pub fn quantize_reference_value(&self, value: Double) -> (r: Quantized)
        requires
            self.wf(),
        ensures
            r == quantized(value, self.scale),
    {
        quantize_normalized(value, self.scale)
    }
}

/// The number lies between minus one and one.
pub open spec fn in_band(v: Double) -> bool {
    v.finite() && (Double { bits: DOUBLE_MINUS_ONE }).rank() <= v.rank() <= (Double {
        bits: DOUBLE_ONE,
    }).rank()
}

/// No coordinate leaves the band from minus one to one, whatever the quotients come to,
/// unless the table holds something that is not a number.
pub proof fn law_features_in_band(tx: TxInput, norm: Normalization, i: int, quotient: Double)
    requires
        0 <= i < DIM,
        forall|key: Seq<char>| #[trigger]
            norm.mcc_risk@.contains_key(key) ==> !norm.mcc_risk@[key].nan(),
    ensures
        in_band(features(tx, norm)[i].coordinate(quotient)),
{
    let key = risk_key(tx.mcc_bytes());
    if norm.mcc_risk@.contains_key(key) {
        assert(!norm.mcc_risk@[key].nan());
    }
}

/// What a feature is divided by is finite and above zero.
pub proof fn law_divisors_positive(tx: TxInput, norm: Normalization, i: int)
    requires
        0 <= i < DIM,
        norm.wf(),
        tx.customer_avg_amount.finite(),
    ensures
        match features(tx, norm)[i] {
            Feature::Share { value, limit } => is_positive(limit),
            Feature::RelativeShare { value, base, limit } => is_positive(base) && is_positive(
                limit,
            ),
            Feature::WholePart { part, whole } => whole > 0,
            Feature::Exact(_) => true,
        },
{
}

} // verus!
