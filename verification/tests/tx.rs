use rinha_fraud::features::{body_contains, mcc_risk, quantise, Quantised};
use rinha_fraud::tx::{extract, TELLING_DECIMALS};

const BODY: &str = r#"{"id":"tx-1","transaction":{"amount":384.88,"installments":3,"requested_at":"2026-03-11T20:23:35Z"},"customer":{"avg_amount":769.76,"tx_count_24h":3,"known_merchants":["MERC-009","MERC-001"]},"merchant":{"id":"MERC-001","mcc":"5912","avg_amount":298.95},"terminal":{"is_online":false,"card_present":true,"km_from_home":13.7},"last_transaction":{"timestamp":"2026-03-11T14:58:35Z","km_from_current":18.86}}"#;

const NUMBERS: Quantised = Quantised {
    amount: 385,
    installments: 2500,
    amount_ratio: 500,
    km_from_last: 189,
    km_from_home: 137,
    tx_count: 1500,
    merchant_avg: 299,
};

fn vector_of(body: &str) -> [i16; 14] {
    let tx = extract(body.as_bytes()).unwrap();
    assert!(tx.check_computable());
    tx.to_vector(&NUMBERS)
}

fn clamped(v: f64) -> i16 {
    (v.clamp(0.0, 1.0) * 10000.0).round() as i16
}

#[test]
fn request_is_taken_apart() {
    let tx = extract(BODY.as_bytes()).unwrap();
    assert_eq!(tx.purchase.amount.whole, b"384");
    assert_eq!(tx.purchase.amount.fraction, b"88");
    assert!(!tx.purchase.amount.negative);
    assert_eq!(tx.purchase.installments.whole, b"3");
    assert_eq!(tx.purchase.requested_at, b"2026-03-11T20:23:35Z");
    assert_eq!(tx.customer.avg_amount.whole, b"769");
    assert_eq!(tx.customer.tx_count_24h.whole, b"3");
    assert_eq!(tx.customer.known_merchants, b"[\"MERC-009\",\"MERC-001\"]");
    assert_eq!(tx.merchant.id, b"MERC-001");
    assert_eq!(tx.merchant.mcc, b"5912");
    assert_eq!(tx.merchant.avg_amount.whole, b"298");
    assert!(!tx.terminal.is_online);
    assert!(tx.terminal.card_present);
    assert_eq!(tx.terminal.km_from_home.whole, b"13");
    let last = tx.last.unwrap();
    assert_eq!(last.timestamp, b"2026-03-11T14:58:35Z");
    assert_eq!(last.km_from_current.fraction, b"86");
}

#[test]
fn request_becomes_a_vector() {
    assert_eq!(
        vector_of(BODY),
        [385, 2500, 500, 8696, 3333, 2257, 189, 137, 1500, 0, 10000, 0, 2000, 299]
    );
}

#[test]
fn first_transaction_is_out_of_the_scale() {
    let at = BODY.find("{\"timestamp\"").unwrap();
    let body = format!("{} null}}", &BODY[..at]);
    let v = vector_of(&body);
    assert_eq!(v[5], -10000);
    assert_eq!(v[6], -10000);
    assert_eq!(v[7], 137);
    assert!(extract(body.as_bytes()).unwrap().last.is_none());
}

#[test]
fn unknown_merchant_counts_fully() {
    let v = vector_of(&BODY.replace("[\"MERC-009\",\"MERC-001\"]", "[\"MERC-009\"]"));
    assert_eq!(v[11], 10000);
    let v = vector_of(&BODY.replace("[\"MERC-009\",\"MERC-001\"]", "[\"MERC-0012\"]"));
    assert_eq!(v[11], 10000);
}

#[test]
fn last_transaction_may_lie_ahead() {
    let v = vector_of(&BODY.replace("2026-03-11T14:58", "2026-03-12T14:58"));
    assert_eq!(v[5], 0);
    let v = vector_of(&BODY.replace("2026-03-11T14:58", "2026-03-09T14:58"));
    assert_eq!(v[5], 10000);
}

#[test]
fn months_meet_in_the_minutes_since_the_last() {
    let body = BODY
        .replace("2026-03-11T20:23", "2026-03-01T00:10")
        .replace("2026-03-11T14:58", "2026-02-28T23:50");
    assert_eq!(vector_of(&body)[5], 139);
}

#[test]
fn every_field_is_needed() {
    for field in [
        "\"amount\"",
        "\"installments\"",
        "\"requested_at\"",
        "\"tx_count_24h\"",
        "known_merchants",
        "\"mcc\"",
        "\"is_online\"",
        "\"card_present\"",
        "\"km_from_home\"",
        "last_transaction",
        "\"timestamp\"",
        "\"km_from_current\"",
    ] {
        assert!(extract(BODY.replace(field, "\"\"").as_bytes()).is_none());
    }
    assert!(extract(BODY.replacen("\"avg_amount\"", "\"\"", 1).as_bytes()).is_none());
    assert!(extract(BODY.replace("\"id\":\"MERC", "\"\":\"MERC").as_bytes()).is_none());
    assert!(extract(b"").is_none());
}

#[test]
fn every_value_is_checked() {
    for (good, bad) in [
        ("384.88", "null"),
        (":3,\"requested_at\"", ":x,\"requested_at\""),
        ("2026-03-11T20:23:35Z", "2026-03-11T20:2"),
        ("769.76", "-"),
        (":3,\"known_merchants\"", ":[],\"known_merchants\""),
        ("[\"MERC-009\",\"MERC-001\"]", "null"),
        ("298.95", "."),
        ("false", "0"),
        ("true", "\"true\""),
        ("13.7", "null"),
        ("2026-03-11T14:58:35Z", "2026-03-11T14:5"),
        ("18.86", "null"),
    ] {
        assert!(extract(BODY.as_bytes()).is_some());
        assert!(extract(BODY.replace(good, bad).as_bytes()).is_none());
    }
}

#[test]
fn fields_come_in_order() {
    let swapped = BODY
        .replace("\"amount\":384.88,\"installments\":3", "\"installments\":3,\"amount\":384.88");
    assert!(extract(swapped.as_bytes()).is_none());
}

#[test]
fn average_of_zero_is_refused() {
    for zero in ["0", "0.0", "-0.00", "000", ".0"] {
        assert!(extract(BODY.replace("769.76", zero).as_bytes()).is_none());
    }
    for not in ["0.01", "-1", "00.5", "10"] {
        assert!(extract(BODY.replace("769.76", not).as_bytes()).is_some());
    }
}

#[test]
fn decimals_beyond_the_scale_of_doubles_are_zero() {
    let mut f = 0.1f64;
    for _ in 1..TELLING_DECIMALS {
        f *= 0.1;
    }
    assert!(f > 0.0);
    assert_eq!(9.0 * (f * 0.1), 0.0);
    let tiny = format!("0.{}1", "0".repeat(TELLING_DECIMALS - 1));
    assert!(extract(BODY.replace("769.76", &tiny).as_bytes()).is_some());
    let none = format!("0.{}9", "0".repeat(TELLING_DECIMALS));
    assert!(extract(BODY.replace("769.76", &none).as_bytes()).is_none());
}

#[test]
fn unreadable_timestamps_have_no_vector() {
    for bad in ["2025-13-11T20:23:35Z", "2026-03-11T2 :23:35Z", "20 5-12-11T20:23:35Z"] {
        let body = BODY.replace("2026-03-11T20:23:35Z", bad);
        assert!(!extract(body.as_bytes()).unwrap().check_computable());
    }
    let body = BODY.replace("2026-03-11T14:58:35Z", "2026-03-11T14:5 :35Z");
    assert!(!extract(body.as_bytes()).unwrap().check_computable());
    let body = BODY.replace("\"5912\"", "\"59 2\"");
    assert!(!extract(body.as_bytes()).unwrap().check_computable());
}

#[test]
fn seconds_are_not_read() {
    let body = BODY.replace("20:23:35Z", "20:23:xx?");
    assert_eq!(vector_of(&body), vector_of(BODY));
}

#[test]
fn quotients_are_rounded_as_doubles_are() {
    for h in 0..2301 {
        assert_eq!(quantise(h, 23), clamped(h as f64 / 23.0));
    }
    for w in 0..7 {
        assert_eq!(quantise(w, 6), clamped(w as f64 / 6.0));
    }
    for m in -1500..1500 {
        assert_eq!(quantise(m, 1440), clamped(m as f64 / 1440.0));
    }
    for m in [i32::MIN, -1000000, 1000000, i32::MAX] {
        assert_eq!(quantise(m, 1440), clamped(m as f64 / 1440.0));
    }
}

#[test]
fn quotients_have_exact_values() {
    assert_eq!(quantise(20, 23), 8696);
    assert_eq!(quantise(2, 6), 3333);
    assert_eq!(quantise(325, 1440), 2257);
    assert_eq!(quantise(-1, 1440), 0);
    assert_eq!(quantise(1441, 1440), 10000);
}

#[test]
fn merchant_categories_have_risks() {
    for (code, risk) in [
        ("5411", 1500),
        ("5812", 3000),
        ("5912", 2000),
        ("5944", 4500),
        ("7801", 8000),
        ("7802", 7500),
        ("7995", 8500),
        ("4511", 3500),
        ("5311", 2500),
        ("0000", 5000),
        ("541", 5000),
        ("", 5000),
        ("54110", 1500),
        ("53;1", 1500),
        ("ABCD", 5000),
    ] {
        assert_eq!(mcc_risk(code.as_bytes()), risk);
    }
}

#[test]
fn needle_is_found_as_a_quoted_string() {
    assert!(body_contains(b"[\"MERC-1\", \"MERC-2\"]", b"MERC-2"));
    assert!(!body_contains(b"[\"MERC-12\"]", b"MERC-1"));
    assert!(!body_contains(b"[\"XMERC-1\"]", b"MERC-1"));
    assert!(!body_contains(b"[MERC-1]", b"MERC-1"));
    assert!(!body_contains(b"[\"\"]", b""));
    assert!(!body_contains(b"[]", b"MERC-1"));
}
