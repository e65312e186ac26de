use rinha_rust_api::ieee::Double;
use rinha_rust_api::parser::{parse_transaction, Mcc, ScannedTx, KNOWN_CAP, MAX_BODY};
use rinha_rust_api::resolve::{format_mcc_number, set_mcc_bytes, TxNumbers};
use rinha_rust_api::types::{StageNanos, TxInput};

fn double(v: f64) -> Double {
    Double { bits: v.to_bits() }
}

fn number(v: Double) -> f64 {
    f64::from_bits(v.bits)
}

fn literal(text: Option<&[u8]>) -> f64 {
    match text {
        Some(t) => std::str::from_utf8(t).unwrap().parse().unwrap(),
        None => 0.0,
    }
}

fn numbers(tx: &ScannedTx<'_>) -> TxNumbers {
    TxNumbers {
        amount: double(literal(tx.amount)),
        installments: double(literal(tx.installments)),
        customer_avg_amount: double(literal(tx.customer_avg_amount)),
        merchant_avg_amount: double(literal(tx.merchant_avg_amount)),
        tx_count_24h: double(literal(tx.tx_count_24h)),
        km_from_home: double(literal(tx.km_from_home)),
        km_from_last_tx: double(literal(tx.km_from_last_tx)),
        minutes_since_last_tx: double(tx.elapsed_seconds() as f64 / 60.0),
        mcc: match tx.mcc {
            Mcc::Text(_) => 0,
            Mcc::Number(n) => literal(Some(n)) as i64,
        },
    }
}

fn read(body: &str) -> TxInput {
    let scanned = parse_transaction(body.as_bytes());
    scanned.resolve(&numbers(&scanned))
}

const WHOLE: &str = r#"{
  "id": "tx-1329056812",
  "transaction": { "amount": 41.12, "installments": 2, "requested_at": "2026-03-11T18:45:53Z" },
  "customer": { "avg_amount": 82.24, "tx_count_24h": 3, "known_merchants": ["MERC-003", "MERC-016"] },
  "merchant": { "id": "MERC-016", "mcc": "5411", "avg_amount": 60.25 },
  "terminal": { "is_online": false, "card_present": true, "km_from_home": 29.23 },
  "last_transaction": { "timestamp": "2026-03-11T14:58:35Z", "km_from_current": 18.86 }
}"#;

#[test]
fn a_whole_transaction_is_read() {
    let tx = read(WHOLE);
    assert!(tx.parse_ok);
    assert!(tx.amount_seen);
    assert_eq!(number(tx.amount), 41.12);
    assert_eq!(number(tx.installments), 2.0);
    assert_eq!(number(tx.customer_avg_amount), 82.24);
    assert_eq!(number(tx.merchant_avg_amount), 60.25);
    assert_eq!(number(tx.tx_count_24h), 3.0);
    assert_eq!(number(tx.km_from_home), 29.23);
    assert_eq!(number(tx.km_from_last_tx), 18.86);
    assert_eq!(number(tx.minutes_since_last_tx), 13_638.0 / 60.0);
    assert_eq!(tx.requested_at_seconds, 1_773_254_753);
    assert_eq!(tx.hour_of_day, 18);
    assert_eq!(tx.day_of_week, 2);
    assert_eq!(&tx.mcc[..tx.mcc_len as usize], b"5411");
    assert!(!tx.is_online);
    assert!(tx.card_present);
    assert!(!tx.unknown_merchant);
    assert!(tx.has_last_tx);
    assert!(tx.has_last_tx_km);
}

#[test]
fn what_is_missing_has_its_default() {
    let tx = read(r#"{"transaction":{"amount":7}}"#);
    assert!(tx.parse_ok);
    assert_eq!(number(tx.amount), 7.0);
    assert_eq!(number(tx.installments), 1.0);
    assert_eq!(number(tx.customer_avg_amount), 7.0);
    assert_eq!(number(tx.merchant_avg_amount), 7.0);
    assert_eq!(number(tx.tx_count_24h), 0.0);
    assert_eq!(tx.hour_of_day, 12);
    assert_eq!(tx.day_of_week, 3);
    assert_eq!(tx.mcc_len, 0);
    assert!(!tx.is_online);
    assert!(tx.card_present);
    assert!(tx.unknown_merchant);
    assert!(!tx.has_last_tx);
    assert_eq!(number(tx.minutes_since_last_tx), 0.0);
}

#[test]
fn averages_fall_back_to_at_least_one() {
    let tx = read(r#"{"transaction":{"amount":0.25,"installments":0},"customer":{"avg_amount":-3},"merchant":{"avg_amount":0}}"#);
    assert!(tx.parse_ok);
    assert_eq!(number(tx.customer_avg_amount), 1.0);
    assert_eq!(number(tx.merchant_avg_amount), 1.0);
    assert_eq!(number(tx.installments), 1.0);
}

#[test]
fn bodies_that_are_no_object_are_refused() {
    assert!(!read("").parse_ok);
    assert!(!read("   ").parse_ok);
    assert!(!read("[]").parse_ok);
    assert!(!read("null").parse_ok);
    let long = format!("{{\"transaction\":{{\"amount\":1}}{}}}", " ".repeat(MAX_BODY));
    assert!(!read(&long).parse_ok);
    let fits = format!("{{\"transaction\":{{\"amount\":1}}{}", " ".repeat(MAX_BODY - 27));
    assert_eq!(fits.len(), MAX_BODY);
    assert!(read(&fits).parse_ok);
}

#[test]
fn an_amount_is_needed() {
    assert!(!read("{}").parse_ok);
    assert!(!read(r#"{"transaction":{}}"#).parse_ok);
    assert!(!read(r#"{"transaction":{"amount":-0.01}}"#).parse_ok);
    assert!(!read(r#"{"transaction":{"amount":1e999}}"#).parse_ok);
    assert!(!read(r#"{"transaction":{"amount":"abc"}}"#).parse_ok);
    assert!(read(r#"{"transaction":{"amount":0}}"#).parse_ok);
    assert!(read(r#"{"transaction":{"amount":"12.5"}}"#).parse_ok);
}

#[test]
fn a_key_without_a_colon_refuses_the_body() {
    let scanned = parse_transaction(br#"{"transaction":{"amount":1},"merchant" {}}"#);
    assert!(!scanned.parse_ok);
    assert!(!scanned.complete);
    let tx = scanned.resolve(&numbers(&scanned));
    assert!(!tx.parse_ok);
    assert!(tx.unknown_merchant);
}

#[test]
fn a_bad_timestamp_refuses_for_good() {
    assert!(!read(r#"{"transaction":{"amount":1,"requested_at":"nonsense"}}"#).parse_ok);
    assert!(
        !read(r#"{"transaction":{"amount":1,"requested_at":"nonsense","requested_at":"2026-03-11T18:45:53Z"}}"#)
            .parse_ok
    );
}

#[test]
fn merchants_are_known_by_their_id() {
    let with = |known: &str, id: &str| {
        read(&format!(
            r#"{{"transaction":{{"amount":1}},"customer":{{"known_merchants":{known}}},"merchant":{{"id":"{id}"}}}}"#
        ))
    };
    assert!(!with(r#"["a","b"]"#, "b").unknown_merchant);
    assert!(with(r#"["a","b"]"#, "c").unknown_merchant);
    assert!(with(r#"["a",""]"#, "").unknown_merchant);
    assert!(with("[]", "a").unknown_merchant);
    // Ids are told apart by the bytes that are kept.
    let long = "x".repeat(32);
    assert!(!with(&format!("[\"{long}1\"]"), &format!("{long}2")).unknown_merchant);
}

#[test]
fn only_so_many_known_merchants_are_kept() {
    let ids: Vec<String> = (0..KNOWN_CAP + 1).map(|i| format!("\"m{i}\"")).collect();
    let body = |id: usize| {
        format!(
            r#"{{"transaction":{{"amount":1}},"customer":{{"known_merchants":[{}]}},"merchant":{{"id":"m{id}"}}}}"#,
            ids.join(",")
        )
    };
    assert!(!read(&body(KNOWN_CAP - 1)).unknown_merchant);
    assert!(read(&body(KNOWN_CAP)).unknown_merchant);
}

#[test]
fn a_last_transaction_may_be_null() {
    let tx = read(r#"{"transaction":{"amount":1},"last_transaction":null}"#);
    assert!(tx.parse_ok);
    assert!(!tx.has_last_tx);
}

#[test]
fn time_does_not_run_backwards() {
    let tx = read(
        r#"{"transaction":{"amount":1,"requested_at":"2026-03-11T18:00:00Z"},"last_transaction":{"timestamp":"2026-03-11T19:00:00Z","km_from_current":-5}}"#,
    );
    assert!(tx.has_last_tx);
    assert_eq!(number(tx.minutes_since_last_tx), 0.0);
    assert_eq!(number(tx.km_from_last_tx), 0.0);
}

#[test]
fn a_code_written_as_a_number_fills_its_buffer() {
    let tx = read(r#"{"transaction":{"amount":1},"merchant":{"mcc":5411}}"#);
    assert_eq!(tx.mcc_len, 8);
    assert_eq!(&tx.mcc, b"5411\0\0\0\0");
    let tx = read(r#"{"transaction":{"amount":1},"merchant":{"mcc":5411.9}}"#);
    assert_eq!(&tx.mcc, b"5411\0\0\0\0");
}

#[test]
fn codes_are_written_in_decimal() {
    assert_eq!(&format_mcc_number(0), b"0\0\0\0\0\0\0\0");
    assert_eq!(&format_mcc_number(-12), b"-12\0\0\0\0\0");
    assert_eq!(&format_mcc_number(123_456_789), b"12345678");
    assert_eq!(&format_mcc_number(i64::MIN), b"-9223372");
    let mut tx = TxInput::default();
    set_mcc_bytes(&mut tx, b"123456789");
    assert_eq!(tx.mcc_len, 8);
    assert_eq!(&tx.mcc, b"12345678");
    set_mcc_bytes(&mut tx, b"1");
    assert_eq!(tx.mcc_len, 1);
    assert_eq!(&tx.mcc, b"1\0\0\0\0\0\0\0");
}

#[test]
fn members_that_are_not_known_are_passed() {
    let tx = read(
        r#"{"x":[1,{"amount":9}],"transaction":{"y":{"amount":8},"amount":3,"z":"}"},"w":null}"#,
    );
    assert!(tx.parse_ok);
    assert_eq!(number(tx.amount), 3.0);
}

#[test]
fn elapsed_time_does_not_overflow() {
    let mut scanned = parse_transaction(b"{}");
    assert_eq!(scanned.elapsed_seconds(), 0);
    scanned.requested_at_seconds = i64::MAX;
    scanned.last_tx_seconds = Some(-1);
    assert_eq!(scanned.elapsed_seconds(), i64::MAX);
    scanned.requested_at_seconds = i64::MIN;
    scanned.last_tx_seconds = Some(1);
    assert_eq!(scanned.elapsed_seconds(), i64::MIN);
}

#[test]
fn stages_start_at_zero() {
    let stages = StageNanos::default();
    assert_eq!(
        stages,
        StageNanos {
            http_parse: 0,
            json_parse: 0,
            vectorize: 0,
            ann: 0,
            total: 0
        }
    );
}

/// Every field of a transaction, with numbers by their bits.
fn fields(tx: &TxInput) -> String {
    format!("{tx:?}")
}

#[test]
fn members_may_come_in_any_order() {
    let members = [
        r#""transaction": { "amount": 41.12, "installments": 2, "requested_at": "2026-03-11T18:45:53Z" }"#,
        r#""customer": { "avg_amount": 82.24, "tx_count_24h": 3, "known_merchants": ["a", "b}"] }"#,
        r#""merchant": { "id": "b}", "mcc": "5411", "avg_amount": 60.25 }"#,
        r#""terminal": { "is_online": true, "card_present": false, "km_from_home": 29.23 }"#,
        r#""last_transaction": { "timestamp": "2026-03-11T14:58:35Z", "km_from_current": 18.86 }"#,
    ];
    let first = read(&format!("{{{}}}", members.join(",")));
    assert!(first.parse_ok && first.has_last_tx && !first.unknown_merchant);
    let mut order = [0usize, 1, 2, 3, 4];
    let mut seen = 0;
    for turn in 0..5 {
        for swap in 0..4 {
            order.swap(swap, swap + 1);
            let listed: Vec<&str> = order.iter().map(|i| members[*i]).collect();
            let plain = read(&format!("{{{}}}", listed.join(",")));
            assert_eq!(fields(&plain), fields(&first), "{order:?}");
            let mixed = format!(
                " \n{{ \"x\" : [1, {{\"transaction\": 2}}] , {} ,\t\"y\": null\n}} tail",
                listed.join(" ,\n \"z\": \"}},\" , ")
            );
            assert_eq!(fields(&read(&mixed)), fields(&first), "{order:?} {turn}");
            seen += 1;
        }
        order.rotate_left(1);
    }
    assert_eq!(seen, 20);
}

#[test]
fn an_object_without_members_says_nothing() {
    assert_eq!(fields(&read("{}")), fields(&read(" { \n } x")));
    let scanned = parse_transaction(b"{}");
    assert!(scanned.complete && scanned.parse_ok);
}

#[test]
fn the_total_covers_the_stages() {
    let stages = StageNanos::of(10, 13, 20, 120, 125);
    assert_eq!(
        stages,
        StageNanos {
            http_parse: 0,
            json_parse: 3,
            vectorize: 7,
            ann: 100,
            total: 115
        }
    );
    assert!(stages.total >= stages.json_parse + stages.vectorize + stages.ann);
}
