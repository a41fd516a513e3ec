use fraud_detection_api::config::{risk_in, UNKNOWN_RISK};
use fraud_detection_api::features::{facts, is_datable, is_known_merchant, Facts};
use fraud_detection_api::json::parse_transaction;
use fraud_detection_api::normalization::{
    datetime_to_minutes, day_of_week, hour_of_day, minutes_diff, parse_u32_4, parse_u8_2,
};

#[test]
fn test_hour_of_day_parsing() {
    assert_eq!(hour_of_day("2026-03-11T00:00:00Z"), 0);
    assert_eq!(hour_of_day("2026-03-11T18:45:53Z"), 18);
    assert_eq!(hour_of_day("2026-03-11T23:59:59Z"), 23);
}

#[test]
fn test_day_of_week_sakamoto() {
    assert_eq!(day_of_week("2026-03-11T18:45:53Z"), 2);
    assert_eq!(day_of_week("2026-01-05T00:00:00Z"), 0);
    assert_eq!(day_of_week("2026-01-11T00:00:00Z"), 6);
}

#[test]
fn test_minutes_diff_cross_day() {
    let diff = minutes_diff("2026-03-12T01:00:00Z", "2026-03-11T23:00:00Z") as f32;
    assert!((diff - 120.0).abs() < 0.01, "Expected 120 min, got {}", diff);
}

#[test]
fn test_minutes_diff_same_day() {
    let diff = minutes_diff("2026-03-11T18:45:00Z", "2026-03-11T16:30:00Z") as f32;
    assert!((diff - 135.0).abs() < 0.01, "Expected 135 min, got {}", diff);
}

#[test]
fn digits_make_numbers() {
    assert_eq!(parse_u8_2(b"07"), 7);
    assert_eq!(parse_u32_4(b"2026"), 2026);
}

#[test]
fn minutes_count_from_2000() {
    assert_eq!(datetime_to_minutes("2000-01-01T00:00:00Z"), 0);
    assert_eq!(datetime_to_minutes("2000-01-02T01:01:00Z"), 1501);
    assert_eq!(datetime_to_minutes("2001-01-01T00:00:00Z"), 366 * 1440);
    assert_eq!(datetime_to_minutes("1999-12-31T00:00:00Z"), -1440);
}

#[test]
fn minutes_before_2000_count_leap_days() {
    assert_eq!(datetime_to_minutes("1996-12-31T00:00:00Z"), -1_578_240);
    assert_eq!(datetime_to_minutes("1997-01-01T00:00:00Z"), -1_578_240 + 1440);
    assert_eq!(datetime_to_minutes("1996-01-01T00:00:00Z"), -1461 * 1440);
    assert_eq!(datetime_to_minutes("0000-03-01T00:00:00Z"), -(730_485 - 60) * 1440);
    assert_eq!(
        minutes_diff("1996-12-31T00:00:00Z", "1997-01-01T00:00:00Z"),
        1440
    );
    assert_eq!(
        minutes_diff("1996-02-28T00:00:00Z", "1996-03-01T00:00:00Z"),
        2 * 1440
    );
    assert_eq!(
        minutes_diff("1900-02-28T00:00:00Z", "1900-03-01T00:00:00Z"),
        1440
    );
    assert_eq!(
        minutes_diff("1999-12-31T23:59:00Z", "2000-01-01T00:00:00Z"),
        1
    );
}

#[test]
fn minutes_cross_leap_days_and_years() {
    assert_eq!(
        minutes_diff("2024-03-01T00:00:00Z", "2024-02-28T00:00:00Z"),
        2 * 1440
    );
    assert_eq!(
        minutes_diff("2023-03-01T00:00:00Z", "2023-02-28T00:00:00Z"),
        1440
    );
    assert_eq!(
        minutes_diff("2025-12-31T23:59:00Z", "2026-01-01T00:00:00Z"),
        1
    );
    assert_eq!(
        minutes_diff("2100-03-01T00:00:00Z", "2100-02-28T00:00:00Z"),
        1440
    );
}

#[test]
fn minutes_grow_with_the_timestamp() {
    let moments = [
        "0000-02-29T23:59:00Z",
        "1900-02-28T00:00:00Z",
        "1900-03-01T00:00:00Z",
        "1999-12-31T23:59:00Z",
        "2000-01-01T00:00:00Z",
        "2000-02-29T12:00:00Z",
        "2000-03-01T11:59:00Z",
        "2026-12-31T00:01:00Z",
    ];
    for pair in moments.windows(2) {
        assert!(datetime_to_minutes(pair[0]) < datetime_to_minutes(pair[1]));
    }
}

#[test]
fn weekdays_follow_each_other() {
    assert_eq!(day_of_week("2000-01-01T00:00:00Z"), 5);
    assert_eq!(day_of_week("2024-02-28T00:00:00Z"), 2);
    assert_eq!(day_of_week("2024-02-29T00:00:00Z"), 3);
    assert_eq!(day_of_week("2024-03-01T00:00:00Z"), 4);
    assert_eq!(day_of_week("1999-12-31T00:00:00Z"), 4);
}

#[test]
fn timestamps_that_cannot_be_read_are_told() {
    assert!(is_datable(b"2026-03-11T18:45:53Z", None));
    assert!(is_datable(b"2026-03-11T18:45:53Z", Some(b"2026-03-11T10:00:00Z")));
    assert!(!is_datable(b"", None));
    assert!(!is_datable(b"2026-13-11T18:45:53Z", None));
    assert!(!is_datable(b"2026-00-11T18:45:53Z", None));
    assert!(!is_datable(b"0000-01-11T18:45:53Z", None));
    assert!(is_datable(b"0000-03-11T18:45:53Z", None));
    assert!(!is_datable(b"2026-03-11T 8:45:53Z", None));
    assert!(!is_datable(b"2026-03-11T18:45:53Z", Some(b"2026-03-11")));
}

#[test]
fn merchants_are_known_or_not() {
    let known: [&[u8]; 3] = [b"A", b"B", b"C"];
    assert!(is_known_merchant(&known, 3, b"C"));
    assert!(!is_known_merchant(&known, 2, b"C"));
    assert!(!is_known_merchant(&known, 3, b"c"));
    assert!(!is_known_merchant(&known, 0, b"A"));
}

#[test]
fn facts_of_a_transaction() {
    let payload = br#"{
      "transaction":{"amount":1,"installments":1,"requested_at":"2026-03-12T00:10:00Z"},
      "customer":{"avg_amount":2,"tx_count_24h":1,"known_merchants":["M"]},
      "merchant":{"id":"M","mcc":"2","avg_amount":3},
      "terminal":{"is_online":true,"card_present":false,"km_from_home":4},
      "last_transaction":{"timestamp":"2026-03-11T23:50:00Z","km_from_current":5}
    }"#;
    let t = parse_transaction(payload).unwrap();
    let table = [10, 11, 12];
    assert_eq!(
        facts(&t, &table),
        Facts {
            hour: 0,
            weekday: 3,
            minutes_since_last: Some(20),
            is_online: true,
            card_present: false,
            unknown_merchant: false,
            mcc_risk: 12,
        }
    );
    assert_eq!(facts(&t, &table[..2]).mcc_risk, UNKNOWN_RISK);
    assert_eq!(f32::from_bits(UNKNOWN_RISK), 0.5);
    assert_eq!(risk_in(&table, 1), 11);
}
