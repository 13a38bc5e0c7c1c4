use std::collections::HashMap;

use rinha::calendar::{
    days_from_civil, hour_from_timestamp, parse_u32, timestamp_minutes, timestamp_parts,
    weekday_from_ymd,
};
use rinha::request::{
    array_after, array_contains_quoted, bool_after, number_after, parse_number, read_last,
    read_request, saturating_difference, starts_with_json_null, string_after, value_start, Number,
    RequestFields,
};
use rinha::text::{find_key, find_key_from, same_text};
use rinha::vector::{
    elapsed_seconds, facts_at, merchant_is_known, request_facts, weekday_index, Timestamp,
    VectorizeError, Weekday,
};

struct Normalization {
    max_amount: f32,
    max_installments: f32,
    amount_vs_avg_ratio: f32,
    max_minutes: f32,
    max_km: f32,
    max_tx_count_24h: f32,
    max_merchant_avg_amount: f32,
}

struct Vectorizer {
    normalization: Normalization,
    mcc_risk: HashMap<String, f32>,
}

struct TypedRequest {
    amount: f64,
    installments: u32,
    requested_at: String,
    customer_avg_amount: f64,
    tx_count_24h: u32,
    known_merchants: Vec<String>,
    merchant_id: String,
    mcc: String,
    merchant_avg_amount: f64,
    is_online: bool,
    card_present: bool,
    km_from_home: f64,
    last: Option<(String, f64)>,
}

fn clamp(value: f32) -> f32 {
    value.clamp(0.0, 1.0)
}

fn feature(value: bool) -> f32 {
    if value {
        1.0
    } else {
        0.0
    }
}

fn value_of(number: &Number) -> f32 {
    let value = number.whole as f32 + number.fraction as f32 / number.scale as f32;
    if number.negative {
        -value
    } else {
        value
    }
}

impl Vectorizer {
    fn vectorize(&self, request: &TypedRequest) -> Result<[f32; 14], VectorizeError> {
        let facts = request_facts(
            &request.requested_at,
            &request.last.as_ref().map(|last| last.0.clone()),
            &request.known_merchants,
            &request.merchant_id,
        )?;
        let n = &self.normalization;
        let amount_vs_avg = if request.customer_avg_amount <= 0.0 {
            1.0
        } else {
            (request.amount as f32 / request.customer_avg_amount as f32) / n.amount_vs_avg_ratio
        };
        let minutes = match facts.seconds_since_last {
            Some(seconds) => clamp(seconds as f32 / 60.0 / n.max_minutes),
            None => -1.0,
        };
        let km = match &request.last {
            Some(last) => clamp(last.1 as f32 / n.max_km),
            None => -1.0,
        };
        Ok([
            clamp(request.amount as f32 / n.max_amount),
            clamp(request.installments as f32 / n.max_installments),
            clamp(amount_vs_avg),
            facts.hour as f32 / 23.0,
            facts.weekday as f32 / 6.0,
            minutes,
            km,
            clamp(request.km_from_home as f32 / n.max_km),
            clamp(request.tx_count_24h as f32 / n.max_tx_count_24h),
            feature(request.is_online),
            feature(request.card_present),
            feature(!facts.known_merchant),
            *self.mcc_risk.get(&request.mcc).unwrap_or(&0.5),
            clamp(request.merchant_avg_amount as f32 / n.max_merchant_avg_amount),
        ])
    }

    fn vectorize_json_bytes(&self, body: &[u8]) -> Result<[f32; 14], VectorizeError> {
        let fields: RequestFields = read_request(body)?;
        let n = &self.normalization;
        let amount = value_of(&fields.transaction.amount);
        let average = value_of(&fields.customer_avg_amount);
        let amount_vs_avg = if fields.customer_avg_amount.is_positive() {
            (amount / average) / n.amount_vs_avg_ratio
        } else {
            1.0
        };
        let (minutes, km) = match &fields.last {
            Some(last) => (
                clamp(last.minutes as f32 / n.max_minutes),
                clamp(value_of(&last.km_from_current) / n.max_km),
            ),
            None => (-1.0, -1.0),
        };
        Ok([
            clamp(amount / n.max_amount),
            clamp(value_of(&fields.transaction.installments) / n.max_installments),
            clamp(amount_vs_avg),
            fields.transaction.hour as f32 / 23.0,
            fields.transaction.weekday as f32 / 6.0,
            minutes,
            km,
            clamp(value_of(&fields.terminal.km_from_home) / n.max_km),
            clamp(value_of(&fields.tx_count_24h) / n.max_tx_count_24h),
            feature(fields.terminal.is_online),
            feature(fields.terminal.card_present),
            feature(!fields.known_merchant),
            *self.mcc_risk.get(fields.mcc).unwrap_or(&0.5),
            clamp(value_of(&fields.merchant_avg_amount) / n.max_merchant_avg_amount),
        ])
    }
}

fn sample_vectorizer() -> Vectorizer {
    let mut mcc_risk = HashMap::new();
    mcc_risk.insert("5411".into(), 0.15);
    mcc_risk.insert("7802".into(), 0.75);
    Vectorizer {
        normalization: Normalization {
            max_amount: 10000.0,
            max_installments: 12.0,
            amount_vs_avg_ratio: 10.0,
            max_minutes: 1440.0,
            max_km: 1000.0,
            max_tx_count_24h: 20.0,
            max_merchant_avg_amount: 10000.0,
        },
        mcc_risk,
    }
}

fn assert_close(actual: f32, expected: f32) {
    let delta = (actual - expected).abs();
    assert!(
        delta < 0.0001,
        "expected {expected:.6}, got {actual:.6} (delta={delta:.6})"
    );
}

#[test]
fn vectorizes_documented_legit_example() {
    let vectorizer = sample_vectorizer();
    let request = TypedRequest {
        amount: 41.12,
        installments: 2,
        requested_at: "2026-03-11T18:45:53Z".into(),
        customer_avg_amount: 82.24,
        tx_count_24h: 3,
        known_merchants: vec!["MERC-003".into(), "MERC-016".into()],
        merchant_id: "MERC-016".into(),
        mcc: "5411".into(),
        merchant_avg_amount: 60.25,
        is_online: false,
        card_present: true,
        km_from_home: 29.23,
        last: None,
    };

    let vector = vectorizer.vectorize(&request).unwrap();

    assert_close(vector[0], 0.004112);
    assert_close(vector[1], 2.0 / 12.0);
    assert_close(vector[2], 0.05);
    assert_close(vector[3], 18.0 / 23.0);
    assert_close(vector[4], 2.0 / 6.0);
    assert_eq!(vector[5], -1.0);
    assert_eq!(vector[6], -1.0);
    assert_close(vector[7], 0.02923);
    assert_close(vector[8], 3.0 / 20.0);
    assert_eq!(vector[9], 0.0);
    assert_eq!(vector[10], 1.0);
    assert_eq!(vector[11], 0.0);
    assert_close(vector[12], 0.15);
    assert_close(vector[13], 0.006025);
}

#[test]
fn vectorizes_documented_fraud_example() {
    let vectorizer = sample_vectorizer();
    let request = TypedRequest {
        amount: 9505.97,
        installments: 10,
        requested_at: "2026-03-14T05:15:12Z".into(),
        customer_avg_amount: 81.28,
        tx_count_24h: 20,
        known_merchants: vec!["MERC-008".into(), "MERC-007".into(), "MERC-005".into()],
        merchant_id: "MERC-068".into(),
        mcc: "7802".into(),
        merchant_avg_amount: 54.86,
        is_online: false,
        card_present: true,
        km_from_home: 952.27,
        last: None,
    };

    let vector = vectorizer.vectorize(&request).unwrap();

    assert_close(vector[0], 0.950597);
    assert_close(vector[1], 10.0 / 12.0);
    assert_eq!(vector[2], 1.0);
    assert_close(vector[3], 5.0 / 23.0);
    assert_close(vector[4], 5.0 / 6.0);
    assert_eq!(vector[5], -1.0);
    assert_eq!(vector[6], -1.0);
    assert_close(vector[7], 0.95227);
    assert_eq!(vector[8], 1.0);
    assert_eq!(vector[9], 0.0);
    assert_eq!(vector[10], 1.0);
    assert_eq!(vector[11], 1.0);
    assert_close(vector[12], 0.75);
    assert_close(vector[13], 0.005486);
}

#[test]
fn vectorizes_last_transaction_and_unknown_mcc_defaults() {
    let vectorizer = sample_vectorizer();
    let request = TypedRequest {
        amount: 120.0,
        installments: 1,
        requested_at: "2026-03-11T20:23:35Z".into(),
        customer_avg_amount: 60.0,
        tx_count_24h: 2,
        known_merchants: vec!["MERC-001".into()],
        merchant_id: "MERC-002".into(),
        mcc: "9999".into(),
        merchant_avg_amount: 300.0,
        is_online: true,
        card_present: false,
        km_from_home: 13.7090520965,
        last: Some(("2026-03-11T14:58:35Z".into(), 18.8626479774)),
    };

    let vector = vectorizer.vectorize(&request).unwrap();

    assert_close(vector[5], 325.0 / 1440.0);
    assert_close(vector[6], 18.8626479774_f32 / 1000.0);
    assert_eq!(vector[9], 1.0);
    assert_eq!(vector[10], 0.0);
    assert_eq!(vector[11], 1.0);
    assert_eq!(vector[12], 0.5);
}

const SAMPLE: &str = r#"{"id":"tx-with-last","transaction":{"amount":120.0,"installments":1,"requested_at":"2026-03-11T20:23:35Z"},"customer":{"avg_amount":60.0,"tx_count_24h":2,"known_merchants":["MERC-001"]},"merchant":{"id":"MERC-002","mcc":"9999","avg_amount":300.0},"terminal":{"is_online":true,"card_present":false,"km_from_home":13.7090520965},"last_transaction":{"timestamp":"2026-03-11T14:58:35Z","km_from_current":18.8626479774}}"#;

#[test]
fn vectorizes_json_bytes_like_typed_request() {
    let vectorizer = sample_vectorizer();

    let vector = vectorizer.vectorize_json_bytes(SAMPLE.as_bytes()).unwrap();

    assert_close(vector[0], 0.012);
    assert_close(vector[2], 0.2);
    assert_close(vector[5], 325.0 / 1440.0);
    assert_close(vector[6], 18.8626479774_f32 / 1000.0);
    assert_eq!(vector[9], 1.0);
    assert_eq!(vector[10], 0.0);
    assert_eq!(vector[11], 1.0);
    assert_eq!(vector[12], 0.5);
}

#[test]
fn request_fields_are_read() {
    let fields = read_request(SAMPLE.as_bytes()).unwrap();
    assert_eq!(
        fields.transaction.amount,
        Number { negative: false, whole: 120, fraction: 0, scale: 10 }
    );
    assert_eq!(fields.transaction.installments.whole, 1);
    assert_eq!(fields.transaction.hour, 20);
    assert_eq!(fields.transaction.weekday, 2);
    assert_eq!(fields.customer_avg_amount.whole, 60);
    assert_eq!(fields.merchant_avg_amount.whole, 300);
    assert_eq!(fields.tx_count_24h.whole, 2);
    assert!(!fields.known_merchant);
    assert_eq!(fields.mcc, "9999");
    assert!(fields.terminal.is_online);
    assert!(!fields.terminal.card_present);
    assert_eq!(fields.terminal.km_from_home.fraction, 7090520965);
    let last = fields.last.unwrap();
    assert_eq!(last.minutes, 325);
    assert_eq!(last.km_from_current.whole, 18);
}

#[test]
fn null_last_transaction_is_none() {
    let start = SAMPLE.find("{\"timestamp\"").unwrap();
    let body = format!("{}null}}", &SAMPLE[..start]);
    assert_eq!(read_request(body.as_bytes()).unwrap().last, None);
    let spaced = format!("{} \n\t null }}", &SAMPLE[..start]);
    assert_eq!(read_request(spaced.as_bytes()).unwrap().last, None);
}

#[test]
fn known_merchant_is_found() {
    let body = SAMPLE.replace("[\"MERC-001\"]", "[\"MERC-001\",\"MERC-002\"]");
    assert!(read_request(body.as_bytes()).unwrap().known_merchant);
}

fn failure(from: &str, to: &str) -> VectorizeError {
    assert!(SAMPLE.contains(from));
    read_request(SAMPLE.replace(from, to).as_bytes()).err().unwrap()
}

#[test]
fn broken_requests_are_refused() {
    for (from, to) in [
        ("\"transaction\"", "\"transactio\""),
        ("\"terminal\"", "\"terminals\""),
        ("\"last_transaction\"", "\"last\""),
        ("\"amount\"", "\"amont\""),
        ("\"requested_at\":\"2026-03-11T20:23:35Z\"", "\"requested_at\":5"),
        ("2026-03-11T20:23:35Z", "2026-03"),
        ("2026-03-11T20:23:35Z", "2026-0x-11T20:23:35Z"),
        ("[\"MERC-001\"]", "null"),
        ("true", "1"),
        ("2026-03-11T14:58:35Z", "yesterday"),
        ("\"km_from_current\"", "\"km\""),
    ] {
        assert!(matches!(failure(from, to), VectorizeError::InvalidJson), "{from}");
    }
    assert!(matches!(
        failure("120.0", "99999999999999999999"),
        VectorizeError::NumberTooLarge
    ));
    assert!(matches!(
        failure("60.0", "60.0000000000000000001"),
        VectorizeError::NumberTooLarge
    ));
    assert!(matches!(
        failure("\"id\":\"MERC-002\"", "\"id\":\"\""),
        VectorizeError::EmptyMerchantId
    ));
    assert!(matches!(read_request(b"").err().unwrap(), VectorizeError::InvalidJson));
}

#[test]
fn category_code_must_be_text() {
    let mut body = SAMPLE.as_bytes().to_vec();
    let at = SAMPLE.find("9999").unwrap();
    body[at] = 0xff;
    assert!(matches!(read_request(&body).err().unwrap(), VectorizeError::InvalidJson));
    let accented = SAMPLE.replace("9999", "99é9");
    assert_eq!(read_request(accented.as_bytes()).unwrap().mcc, "99é9");
}

#[test]
fn numbers_are_read() {
    let read = |text: &str| parse_number(text.as_bytes()).unwrap();
    let number = |negative, whole, fraction, scale| Number { negative, whole, fraction, scale };
    assert_eq!(read("42,"), number(false, 42, 0, 1));
    assert_eq!(read("-3.25}"), number(true, 3, 25, 100));
    assert_eq!(read(".5"), number(false, 0, 5, 10));
    assert_eq!(read("7.x"), number(false, 7, 0, 1));
    assert_eq!(read("null"), number(false, 0, 0, 1));
    assert_eq!(read(""), number(false, 0, 0, 1));
    assert_eq!(read("1.050"), number(false, 1, 50, 1000));
    assert_eq!(read("9223372036854775807"), number(false, i64::MAX, 0, 1));
    assert!(matches!(
        parse_number(b"9223372036854775808"),
        Err(VectorizeError::NumberTooLarge)
    ));
    assert_eq!(
        read("0.123456789012345678"),
        number(false, 0, 123456789012345678, 1_000_000_000_000_000_000)
    );
    assert!(matches!(
        parse_number(b"0.1234567890123456789"),
        Err(VectorizeError::NumberTooLarge)
    ));
}

#[test]
fn positive_numbers_are_greater_than_zero() {
    for (text, positive) in [
        ("1", true),
        ("0.000000000000000001", true),
        ("0.0", false),
        ("-0", false),
        ("-2.5", false),
    ] {
        let number = parse_number(text.as_bytes()).unwrap();
        assert_eq!(number.is_positive(), positive);
        assert_eq!(value_of(&number) > 0.0, positive);
    }
}

#[test]
fn fields_are_looked_up_by_name() {
    let body = br#"{ "a" : -1.5, "b":true,"c":false, "d": "text", "e": [1, 2] , "f":nul }"#;
    assert_eq!(find_key(body, b"\"b\""), Some(14));
    assert_eq!(find_key_from(body, 15, b"\"b\""), None);
    assert_eq!(value_start(body, 2).unwrap(), 8);
    assert!(value_start(body, 70).is_err());
    assert_eq!(number_after(body, 0, b"\"a\"").unwrap().fraction, 5);
    assert!(bool_after(body, 0, b"\"b\"").unwrap());
    assert!(!bool_after(body, 0, b"\"c\"").unwrap());
    assert!(bool_after(body, 0, b"\"d\"").is_err());
    assert_eq!(string_after(body, 0, b"\"d\"").unwrap(), b"text");
    assert!(string_after(body, 0, b"\"e\"").is_err());
    assert_eq!(array_after(body, 0, b"\"e\"").unwrap(), b"[1, 2]");
    assert!(array_after(body, 0, b"\"f\"").is_err());
    assert!(starts_with_json_null(b"xnull", 1));
    assert!(!starts_with_json_null(b"xnul", 1));
}

#[test]
fn only_the_first_place_of_a_merchant_counts() {
    assert!(array_contains_quoted(b"[\"A1\",\"A2\"]", b"A2"));
    assert!(!array_contains_quoted(b"[\"A1\",\"A2\"]", b"A3"));
    assert!(!array_contains_quoted(b"[\"A21\",\"A2\"]", b"A2"));
    assert!(!array_contains_quoted(b"A2", b"A2"));
}

#[test]
fn timestamps_are_read_by_position() {
    let parts = timestamp_parts(b"2026-03-11T18:45:53Z").unwrap();
    assert_eq!(
        (parts.year, parts.month, parts.day, parts.hour, parts.minute),
        (2026, 3, 11, 18, 45)
    );
    assert_eq!(hour_from_timestamp(b"2026-03-11T18:45").unwrap(), 18);
    assert!(hour_from_timestamp(b"2026-03-11T18:4").is_err());
    assert!(timestamp_parts(b"2026-03-11T18:4x:00Z").is_err());
    assert_eq!(timestamp_minutes(b"1970-01-02T00:01:59Z").unwrap(), 1441);
    assert_eq!(timestamp_minutes(b"2026-03-11T18:45:53Z").unwrap(), 29554245);
    assert_eq!(parse_u32(b"0042").unwrap(), 42);
    assert!(parse_u32(b"4 2").is_err());
    assert_eq!(parse_u32(b"").unwrap(), 0);
}

#[test]
fn days_follow_the_calendar() {
    assert_eq!(days_from_civil(1970, 1, 1), 0);
    assert_eq!(days_from_civil(1969, 12, 31), -1);
    assert_eq!(days_from_civil(2000, 2, 29), 11016);
    assert_eq!(days_from_civil(2000, 3, 1), 11017);
    assert_eq!(days_from_civil(1900, 3, 1) - days_from_civil(1900, 2, 28), 1);
    assert_eq!(days_from_civil(2024, 3, 1) - days_from_civil(2024, 2, 28), 2);
    assert_eq!(days_from_civil(2026, 1, 1) - days_from_civil(2025, 12, 1), 31);
    assert_eq!(days_from_civil(-1, 3, 1), -719834);
    assert_eq!(weekday_from_ymd(b"1970-01-01T00:00").unwrap(), 3);
    assert_eq!(weekday_from_ymd(b"2026-03-11T00:00").unwrap(), 2);
    assert_eq!(weekday_from_ymd(b"1969-12-28T00:00").unwrap(), 6);
    assert_eq!(weekday_from_ymd(b"0001-01-01T00:00").unwrap(), 0);
}

fn at(unix_seconds: i64, nanosecond: u32) -> Timestamp {
    Timestamp { unix_seconds, nanosecond, hour: 7, weekday: Weekday::Sunday }
}

#[test]
fn elapsed_seconds_are_whole_and_never_negative() {
    assert_eq!(elapsed_seconds(&at(100, 0), &at(40, 0)), 60);
    assert_eq!(elapsed_seconds(&at(100, 0), &at(40, 1)), 59);
    assert_eq!(elapsed_seconds(&at(100, 5), &at(40, 1)), 60);
    assert_eq!(elapsed_seconds(&at(40, 0), &at(100, 0)), 0);
    assert_eq!(elapsed_seconds(&at(i64::MAX, 0), &at(i64::MIN, 0)), u64::MAX);
    let facts = facts_at(&at(100, 0), &Some(at(40, 0)), true);
    assert_eq!(facts.hour, 7);
    assert_eq!(facts.weekday, 6);
    assert_eq!(facts.seconds_since_last, Some(60));
    assert!(facts.known_merchant);
    assert_eq!(facts_at(&at(100, 0), &None, false).seconds_since_last, None);
}

#[test]
fn timestamps_of_rfc3339_are_read() {
    let none: Vec<String> = Vec::new();
    let id = "MERC-001".to_string();
    let facts = request_facts("2026-03-14T05:15:12Z", &None, &none, &id).unwrap();
    assert_eq!((facts.hour, facts.weekday), (5, 5));
    let facts = request_facts(
        "2026-03-11T20:23:35+02:00",
        &Some("2026-03-11T20:23:35.5Z".to_string()),
        &vec![id.clone()],
        &id,
    )
    .unwrap();
    assert_eq!((facts.hour, facts.weekday), (20, 2));
    assert_eq!(facts.seconds_since_last, Some(0));
    assert!(facts.known_merchant);
    let facts = request_facts(
        "2026-03-11T20:23:35Z",
        &Some("2026-03-11T20:23:33.5Z".to_string()),
        &none,
        &id,
    )
    .unwrap();
    assert_eq!(facts.seconds_since_last, Some(1));
    for day in 0..7u8 {
        let text = format!("2026-03-{:02}T00:00:00Z", 9 + day);
        assert_eq!(request_facts(&text, &None, &none, &id).unwrap().weekday, day);
    }
    assert!(matches!(
        request_facts("2026-03-11 nonsense", &None, &none, &id),
        Err(VectorizeError::InvalidTimestamp(_))
    ));
    assert!(matches!(
        request_facts("2026-03-11T20:23:35Z", &Some("".to_string()), &none, &id),
        Err(VectorizeError::InvalidTimestamp(_))
    ));
}

#[test]
fn weekdays_are_counted_from_monday() {
    let days = [
        Weekday::Monday,
        Weekday::Tuesday,
        Weekday::Wednesday,
        Weekday::Thursday,
        Weekday::Friday,
        Weekday::Saturday,
        Weekday::Sunday,
    ];
    for (number, day) in days.iter().enumerate() {
        assert_eq!(weekday_index(*day) as usize, number);
    }
}

#[test]
fn merchants_are_known_by_their_whole_name() {
    let known = vec!["MERC-001".to_string(), "MERC-002".to_string()];
    assert!(merchant_is_known(&known, &"MERC-002".to_string()));
    assert!(!merchant_is_known(&known, &"MERC-00".to_string()));
    assert!(!merchant_is_known(&Vec::new(), &"MERC-00".to_string()));
    assert!(same_text("é", "é"));
    assert!(!same_text("é", "e"));
}

/// A list of names as it is written.
fn list_of(names: &[String]) -> String {
    let quoted: Vec<String> = names.iter().map(|name| format!("\"{}\"", name)).collect();
    format!("[{}]", quoted.join(","))
}

#[test]
fn listed_merchants_are_known_in_both_readings() {
    let lists = [vec![], vec!["MERC-001"], vec!["MERC-001", "café", "a]b"], vec!["x,y", "MERC-003"]];
    for list in lists {
        let known: Vec<String> = list.iter().map(|name| name.to_string()).collect();
        let text = list_of(&known);
        for id in ["MERC-001", "MERC-002", "MERC-003", "café", "caf", "x,y", "]", "[]"] {
            if known.iter().any(|name| name.contains(id) && name != id) {
                continue;
            }
            assert_eq!(
                array_contains_quoted(text.as_bytes(), id.as_bytes()),
                merchant_is_known(&known, &id.to_string())
            );
        }
    }
}

fn written(requested_at: &str, last: Option<&str>, known: &[String], id: &str) -> String {
    let last = match last {
        Some(at) => format!("{{\"timestamp\":\"{}\",\"km_from_current\":-1.5}}", at),
        None => "null".to_string(),
    };
    format!(
        "{{\"id\":\"amount\",\"transaction\":{{\"amount\":-12.050,\"installments\":3,\
         \"requested_at\":\"{}\"}},\"customer\":{{\"avg_amount\":7,\"tx_count_24h\":0,\
         \"known_merchants\":{}}},\"merchant\":{{\"id\":\"{}\",\"mcc\":\"id\",\
         \"avg_amount\":0.25}},\"terminal\":{{\"is_online\":false,\"card_present\":true,\
         \"km_from_home\":1.}},\"last_transaction\":{}}}",
        requested_at,
        list_of(known),
        id,
        last
    )
}

#[test]
fn written_requests_are_read_as_what_they_say() {
    let known = vec!["timestamp".to_string(), "mcc".to_string()];
    let body = written("2024-02-29T23:59:01Z", Some("2024-02-29T00:00:02Z"), &known, "mcc-1");
    let fields = read_request(body.as_bytes()).unwrap();
    assert_eq!(
        fields.transaction.amount,
        Number { negative: true, whole: 12, fraction: 50, scale: 1000 }
    );
    assert_eq!(
        fields.transaction.installments,
        Number { negative: false, whole: 3, fraction: 0, scale: 1 }
    );
    assert_eq!((fields.transaction.hour, fields.transaction.weekday), (23, 3));
    assert_eq!(fields.customer_avg_amount.whole, 7);
    assert_eq!(fields.tx_count_24h.whole, 0);
    assert!(!fields.known_merchant);
    assert_eq!(fields.mcc, "id");
    assert_eq!(
        fields.merchant_avg_amount,
        Number { negative: false, whole: 0, fraction: 25, scale: 100 }
    );
    assert!(!fields.terminal.is_online && fields.terminal.card_present);
    assert_eq!(
        fields.terminal.km_from_home,
        Number { negative: false, whole: 1, fraction: 0, scale: 1 }
    );
    let last = fields.last.unwrap();
    assert_eq!(last.minutes, 1439);
    assert_eq!(
        last.km_from_current,
        Number { negative: true, whole: 1, fraction: 5, scale: 10 }
    );
}

#[test]
fn both_readings_of_a_request_agree() {
    let known = vec!["MERC-001".to_string(), "MERC-002".to_string()];
    let times = [
        ("2026-03-11T20:23:35Z", 35, None),
        ("2026-03-11T20:23:35Z", 35, Some(("2026-03-11T14:58:35Z", 35))),
        ("2026-03-11T20:23:35Z", 35, Some(("2026-03-11T20:22:59Z", 59))),
        ("2000-03-01T00:00:00Z", 0, Some(("1999-12-31T23:59:59Z", 59))),
        ("2026-03-11T14:58:35Z", 35, Some(("2026-03-11T20:23:35Z", 35))),
        ("0000-01-01T00:00:00Z", 0, Some(("0000-01-01T00:00:00Z", 0))),
        ("9999-12-31T23:59:59Z", 59, Some(("0000-02-29T12:00:00Z", 0))),
    ];
    for (requested_at, second, last) in times {
        for id in ["MERC-001", "MERC-003"] {
            let last_text = last.map(|(text, _)| text);
            let body = written(requested_at, last_text, &known, id);
            let fields = read_request(body.as_bytes()).unwrap();
            let typed = request_facts(
                requested_at,
                &last_text.map(|text| text.to_string()),
                &known,
                &id.to_string(),
            )
            .unwrap();
            assert_eq!(fields.transaction.hour, typed.hour as u32);
            assert_eq!(fields.transaction.weekday, typed.weekday as u32);
            assert_eq!(fields.known_merchant, typed.known_merchant);
            let seconds = fields.last.map(|found| {
                let (_, last_second) = last.unwrap();
                (found.minutes * 60 + second - last_second).max(0) as u64
            });
            assert_eq!(typed.seconds_since_last, seconds);
        }
    }
}

/// The same JSON with white space around its braces, brackets, colons and commas.
fn spaced(body: &str, before: &str, after: &str) -> String {
    let mut text = String::new();
    let mut inside = false;
    for c in body.chars() {
        if c == '"' {
            inside = !inside;
        }
        if !inside && "{}[]:,".contains(c) {
            text.push_str(before);
            text.push(c);
            text.push_str(after);
        } else {
            text.push(c);
        }
    }
    text
}

#[test]
fn white_space_between_parts_does_not_matter() {
    let known = vec!["MERC-001".to_string(), "x,y: z".to_string(), "MERC-002".to_string()];
    for last in [None, Some("2026-03-11T14:58:35Z")] {
        for id in ["MERC-002", "MERC-003", "x,y: z"] {
            let body = written("2026-03-11T20:23:35Z", last, &known, id);
            let plain = read_request(body.as_bytes()).unwrap();
            for (before, after) in [("", " "), (" ", ""), (" \t", "\r\n  "), ("\n", "\n")] {
                let text = spaced(&body, before, after);
                let fields = read_request(text.as_bytes()).unwrap();
                assert_eq!(fields.transaction, plain.transaction);
                assert_eq!(fields.customer_avg_amount, plain.customer_avg_amount);
                assert_eq!(fields.tx_count_24h, plain.tx_count_24h);
                assert_eq!(fields.known_merchant, id != "MERC-003");
                assert_eq!(plain.known_merchant, id != "MERC-003");
                assert_eq!(fields.mcc, plain.mcc);
                assert_eq!(fields.merchant_avg_amount, plain.merchant_avg_amount);
                assert_eq!(fields.terminal, plain.terminal);
                assert_eq!(fields.last, plain.last);
                assert_eq!(fields.last.is_some(), last.is_some());
            }
        }
    }
}

#[test]
fn minutes_since_the_last_transaction_saturate() {
    let body = br#""last_transaction": {"timestamp": "1970-01-01T00:10:00Z", "km_from_current": 1}"#;
    assert_eq!(read_last(body, 0, 25).unwrap().unwrap().minutes, 15);
    assert_eq!(read_last(body, 0, 3).unwrap().unwrap().minutes, -7);
    assert_eq!(read_last(body, 0, i64::MIN).unwrap().unwrap().minutes, i64::MIN);
    assert_eq!(read_last(body, 0, i64::MAX).unwrap().unwrap().minutes, i64::MAX - 10);
    let earlier = br#""last_transaction": {"timestamp": "1969-12-31T23:50:00Z", "km_from_current": 1}"#;
    assert_eq!(read_last(earlier, 0, i64::MAX).unwrap().unwrap().minutes, i64::MAX);
    assert_eq!(saturating_difference(i64::MIN, 1), i64::MIN);
    assert_eq!(saturating_difference(i64::MAX, -1), i64::MAX);
    assert_eq!(saturating_difference(5, 7), -2);
}
