use rinha_rust_api::ieee::Double;
use rinha_rust_api::resolve::set_mcc_bytes;
use rinha_rust_api::types::{TxInput, DEFAULT_SCALE, DIM};
use rinha_rust_api::vectorize::{
    clamp01, default_mcc_risk, normalized_vector, positive_or, quantize_normalized, Feature,
    Limits, Normalization, Quantized, RiskTable,
};

fn double(v: f64) -> Double {
    Double { bits: v.to_bits() }
}

fn number(v: Double) -> f64 {
    f64::from_bits(v.bits)
}

fn limits(v: f64, scale: Option<i64>) -> Limits {
    Limits {
        max_amount: double(v),
        max_installments: double(v),
        amount_vs_avg_ratio: double(v),
        max_minutes: double(v),
        max_km: double(v),
        max_tx_count_24h: double(v),
        max_merchant_avg_amount: double(v),
        scale,
    }
}

fn has_defaults(norm: &Normalization) -> bool {
    number(norm.max_amount) == 10_000.0
        && number(norm.max_installments) == 12.0
        && number(norm.amount_vs_avg_ratio) == 10.0
        && number(norm.max_minutes) == 1_440.0
        && number(norm.max_km) == 1_000.0
        && number(norm.max_tx_count_24h) == 20.0
        && number(norm.max_merchant_avg_amount) == 10_000.0
}

#[test]
fn the_defaults_are_set() {
    let norm = Normalization::default();
    assert!(has_defaults(&norm));
    assert_eq!(norm.scale(), DEFAULT_SCALE);
}

#[test]
fn a_limit_that_is_not_positive_gets_its_default() {
    for v in [0.0, -0.0, -1.0, f64::NAN, f64::INFINITY, f64::NEG_INFINITY] {
        assert!(has_defaults(&Normalization::from_json(limits(v, None))), "{v}");
    }
    let norm = Normalization::from_json(limits(2.5, None));
    assert_eq!(number(norm.max_amount), 2.5);
    assert_eq!(number(norm.max_merchant_avg_amount), 2.5);
    assert_eq!(norm.scale(), 32_767);
}

#[test]
fn the_scale_has_a_least_value() {
    for (scale, held) in [(1_000, 1_000), (128, 128), (127, 128), (-5, 128), (i64::MIN, 128)] {
        assert_eq!(Normalization::from_json(limits(1.0, Some(scale))).scale(), held);
    }
}

#[test]
fn a_configuration_may_be_missing_in_parts() {
    let norm = Normalization::configured(None, None);
    assert!(has_defaults(&norm));
    assert_eq!(norm.mcc_risk.get("5411"), Some(double(0.15)));
    let mut table = RiskTable::new();
    table.insert("1".to_string(), double(0.9));
    let norm = Normalization::configured(Some(limits(3.0, Some(500))), Some(table));
    assert_eq!(number(norm.max_km), 3.0);
    assert_eq!(norm.scale(), 500);
    assert_eq!(norm.mcc_risk.get("1"), Some(double(0.9)));
    assert_eq!(norm.mcc_risk.get("5411"), None);
}

#[test]
fn the_default_risks_are_these() {
    let table = default_mcc_risk();
    for (code, risk) in [
        ("5411", 0.15),
        ("5812", 0.30),
        ("5912", 0.20),
        ("5944", 0.45),
        ("7801", 0.80),
        ("7802", 0.75),
        ("7995", 0.85),
        ("4511", 0.35),
        ("5311", 0.25),
        ("5999", 0.50),
    ] {
        assert_eq!(table.get(code), Some(double(risk)), "{code}");
    }
    assert_eq!(table.get("541"), None);
    assert_eq!(table.get(""), None);
}

#[test]
fn what_was_put_in_last_holds() {
    let mut table = RiskTable::new();
    table.insert("a".to_string(), double(0.1));
    table.insert("b".to_string(), double(0.2));
    table.insert("a".to_string(), double(0.3));
    assert_eq!(table.get("a"), Some(double(0.3)));
    assert_eq!(table.get("b"), Some(double(0.2)));
}

#[test]
fn the_risk_of_a_code_is_looked_up_by_its_text() {
    let mut norm = Normalization::default();
    let mut tx = TxInput::default();
    assert_eq!(number(norm.mcc_risk(&tx)), 0.5);
    set_mcc_bytes(&mut tx, b"7995");
    assert_eq!(number(norm.mcc_risk(&tx)), 0.85);
    set_mcc_bytes(&mut tx, b"0000");
    assert_eq!(number(norm.mcc_risk(&tx)), 0.5);
    norm.mcc_risk.insert("".to_string(), double(0.25));
    norm.mcc_risk.insert("\u{e9}".to_string(), double(0.75));
    set_mcc_bytes(&mut tx, b"");
    assert_eq!(number(norm.mcc_risk(&tx)), 0.25);
    set_mcc_bytes(&mut tx, "\u{e9}".as_bytes());
    assert_eq!(number(norm.mcc_risk(&tx)), 0.75);
    // Bytes that are no text are looked up as the empty text.
    set_mcc_bytes(&mut tx, b"\xe9");
    assert_eq!(number(norm.mcc_risk(&tx)), 0.25);
}

#[test]
fn risks_are_held_to_the_unit_range() {
    let mut norm = Normalization::default();
    norm.mcc_risk.insert("hi".to_string(), double(7.0));
    norm.mcc_risk.insert("lo".to_string(), double(-7.0));
    let mut tx = TxInput::default();
    set_mcc_bytes(&mut tx, b"hi");
    assert_eq!(number(norm.mcc_risk(&tx)), 1.0);
    set_mcc_bytes(&mut tx, b"lo");
    assert_eq!(number(norm.mcc_risk(&tx)), 0.0);
}

#[test]
fn features_stand_in_their_places() {
    let norm = Normalization::default();
    let mut tx = TxInput::default();
    tx.amount = double(384.88);
    tx.installments = double(3.0);
    tx.customer_avg_amount = double(769.76);
    tx.merchant_avg_amount = double(298.95);
    tx.tx_count_24h = double(3.0);
    tx.km_from_home = double(13.7);
    tx.km_from_last_tx = double(18.8);
    tx.minutes_since_last_tx = double(325.0);
    tx.hour_of_day = 20;
    tx.day_of_week = 2;
    tx.has_last_tx = true;
    tx.is_online = true;
    tx.card_present = false;
    tx.unknown_merchant = true;
    set_mcc_bytes(&mut tx, b"5912");
    let f = normalized_vector(&tx, &norm);
    assert_eq!(f.len(), DIM);
    let share = |value: f64, limit: f64| Feature::Share {
        value: double(value),
        limit: double(limit),
    };
    assert_eq!(f[0], share(384.88, 10_000.0));
    assert_eq!(f[1], share(3.0, 12.0));
    assert_eq!(
        f[2],
        Feature::RelativeShare {
            value: double(384.88),
            base: double(769.76),
            limit: double(10.0)
        }
    );
    assert_eq!(f[3], Feature::WholePart { part: 20, whole: 23 });
    assert_eq!(f[4], Feature::WholePart { part: 2, whole: 6 });
    assert_eq!(f[5], share(325.0, 1_440.0));
    assert_eq!(f[6], share(18.8, 1_000.0));
    assert_eq!(f[7], share(13.7, 1_000.0));
    assert_eq!(f[8], share(3.0, 20.0));
    assert_eq!(f[9], Feature::Exact(double(1.0)));
    assert_eq!(f[10], Feature::Exact(double(0.0)));
    assert_eq!(f[11], Feature::Exact(double(1.0)));
    assert_eq!(f[12], Feature::Exact(double(0.20)));
    assert_eq!(f[13], share(298.95, 10_000.0));
}

#[test]
fn without_a_last_transaction_its_features_are_minus_one() {
    let norm = Normalization::default();
    let tx = TxInput::default();
    let f = normalized_vector(&tx, &norm);
    assert_eq!(f[5], Feature::Exact(double(-1.0)));
    assert_eq!(f[6], Feature::Exact(double(-1.0)));
    // An average that is not positive does not divide.
    assert_eq!(
        f[2],
        Feature::Share {
            value: double(0.0),
            limit: double(10.0)
        }
    );
}

#[test]
fn coordinates_stay_in_the_band() {
    let norm = Normalization::default();
    let f = normalized_vector(&TxInput::default(), &norm);
    for quotient in [0.25, 7.0, -7.0, f64::NAN, f64::INFINITY, f64::NEG_INFINITY] {
        for feature in f.iter() {
            let c = number(feature.settle(double(quotient)));
            assert!((-1.0..=1.0).contains(&c));
        }
    }
    assert_eq!(number(f[0].settle(double(0.25))), 0.25);
    assert_eq!(number(f[5].settle(double(0.25))), -1.0);
}

#[test]
fn shares_are_held_to_the_unit_range() {
    for (v, held) in [
        (0.5, 0.5),
        (1.5, 1.0),
        (-0.5, 0.0),
        (f64::NAN, 0.0),
        (f64::INFINITY, 0.0),
        (f64::NEG_INFINITY, 0.0),
    ] {
        assert_eq!(number(clamp01(double(v))), held, "{v}");
    }
}

#[test]
fn only_positive_numbers_are_kept() {
    for v in [0.0, -1.0, f64::NAN, f64::INFINITY] {
        assert_eq!(number(positive_or(double(v), double(9.0))), 9.0, "{v}");
    }
    assert_eq!(number(positive_or(double(1e-310), double(9.0))), 1e-310);
}

#[test]
fn reference_values_are_quantized() {
    let norm = Normalization::default();
    assert_eq!(norm.quantize_reference_value(double(f64::NAN)), Quantized::Whole(0));
    assert_eq!(norm.quantize_reference_value(double(f64::INFINITY)), Quantized::Whole(0));
    assert_eq!(norm.quantize_reference_value(double(-0.1)), Quantized::Whole(-32_767));
    let scaled = |share: f64| Quantized::Scaled {
        share: double(share),
        scale: 32_767,
    };
    assert_eq!(norm.quantize_reference_value(double(0.25)), scaled(0.25));
    assert_eq!(norm.quantize_reference_value(double(2.0)), scaled(1.0));
    assert_eq!(quantize_normalized(double(-3.0), 1_000), Quantized::Whole(-1_000));
}

#[test]
fn nothing_is_divided_by_zero() {
    let norm = Normalization::from_json(limits(0.0, None));
    let mut tx = TxInput::default();
    tx.customer_avg_amount = double(1e-310);
    for feature in normalized_vector(&tx, &norm).iter() {
        match *feature {
            Feature::Share { limit, .. } => assert!(number(limit) > 0.0),
            Feature::RelativeShare { base, limit, .. } => {
                assert!(number(base) > 0.0 && number(limit) > 0.0)
            }
            Feature::WholePart { whole, .. } => assert!(whole > 0),
            Feature::Exact(_) => {}
        }
    }
}
