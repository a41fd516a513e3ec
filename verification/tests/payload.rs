use fraud_detection_api::json::{
    parse_transaction, parse_usize_ascii, ParsedTransaction, Parser,
};

const SAMPLE: &[u8] = br#"{
      "terminal":{"km_from_home":29.23,"card_present":true,"is_online":false},
      "merchant":{"avg_amount":60.25,"mcc":"5411","id":"MERC-016"},
      "customer":{"known_merchants":["MERC-003","MERC-016"],"tx_count_24h":3,"avg_amount":82.24},
      "transaction":{"requested_at":"2026-03-11T18:45:53Z","installments":2,"amount":41.12},
      "id":"tx-1329056812",
      "last_transaction":null
    }"#;

fn float(numeral: &[u8]) -> f32 {
    std::str::from_utf8(numeral).unwrap().parse::<f32>().unwrap()
}

fn integer(numeral: &[u8]) -> i32 {
    (float(numeral) as i64) as i32
}

#[test]
fn parses_payload_with_variable_order() {
    let parsed = parse_transaction(SAMPLE).unwrap();

    assert_eq!(float(parsed.amount), 41.12);
    assert_eq!(integer(parsed.installments), 2);
    assert_eq!(parsed.requested_at, b"2026-03-11T18:45:53Z");
    assert_eq!(float(parsed.customer_avg_amount), 82.24);
    assert_eq!(integer(parsed.tx_count_24h), 3);
    assert_eq!(parsed.merchant_id, b"MERC-016");
    assert_eq!(parsed.merchant_mcc, 5411);
    assert_eq!(float(parsed.merchant_avg_amount), 60.25);
    assert!(!parsed.is_online);
    assert!(parsed.card_present);
    assert_eq!(parsed.known_merchants_len, 2);
    assert_eq!(parsed.known_merchants[1], b"MERC-016");
    assert!(parsed.last_timestamp.is_none());
}

#[test]
fn parses_last_transaction_object() {
    let payload = br#"{
          "transaction":{"amount":1,"installments":1,"requested_at":"2026-03-12T00:10:00Z"},
          "customer":{"avg_amount":2,"tx_count_24h":1,"known_merchants":[]},
          "merchant":{"id":"MERC-999","mcc":"5999","avg_amount":3},
          "terminal":{"is_online":true,"card_present":false,"km_from_home":4},
          "last_transaction":{"timestamp":"2026-03-11T23:50:00Z","km_from_current":5}
        }"#;

    let parsed = parse_transaction(payload).unwrap();
    assert_eq!(parsed.last_timestamp, Some(&b"2026-03-11T23:50:00Z"[..]));
    assert_eq!(float(parsed.last_km_from_current), 5.0);
}

fn same(a: &ParsedTransaction<'_>, b: &ParsedTransaction<'_>) -> bool {
    a.amount == b.amount
        && a.installments == b.installments
        && a.requested_at == b.requested_at
        && a.customer_avg_amount == b.customer_avg_amount
        && a.tx_count_24h == b.tx_count_24h
        && a.known_merchants[..a.known_merchants_len] == b.known_merchants[..b.known_merchants_len]
        && a.merchant_id == b.merchant_id
        && a.merchant_mcc == b.merchant_mcc
        && a.merchant_avg_amount == b.merchant_avg_amount
        && a.is_online == b.is_online
        && a.card_present == b.card_present
        && a.km_from_home == b.km_from_home
        && a.last_timestamp == b.last_timestamp
        && a.last_km_from_current == b.last_km_from_current
}

const HEAD: &str = r#""merchant":{"id":"M","mcc":"1","avg_amount":1}"#;
const CUSTOMER: &str = r#""customer":{"avg_amount":2,"tx_count_24h":1,"known_merchants":["A"]}"#;

#[test]
fn members_may_come_in_any_order() {
    let one = format!(
        r#"{{"transaction":{{"amount":7,"installments":1,"requested_at":"t"}},{HEAD},{CUSTOMER}}}"#
    );
    let two = format!(
        r#"{{{CUSTOMER},{HEAD},"transaction":{{"requested_at":"t","installments":1,"amount":7}}}}"#
    );
    let a = parse_transaction(one.as_bytes()).unwrap();
    let b = parse_transaction(two.as_bytes()).unwrap();
    assert!(same(&a, &b));
    assert_eq!(a.amount, b"7");
}

#[test]
fn order_inside_sections_and_whitespace_do_not_matter() {
    let tight = br#"{"transaction":{"amount":7.5,"installments":3,"requested_at":"t"},"customer":{"avg_amount":2,"tx_count_24h":1,"known_merchants":["A","B"]},"merchant":{"id":"M","mcc":"5411","avg_amount":1},"terminal":{"is_online":true,"card_present":false,"km_from_home":4},"last_transaction":{"timestamp":"u","km_from_current":5},"note":{"a":[1,2],"b":null}}"#;
    let loose = b"\n{ \"note\" : {\t\"b\" : null , \"a\" : [ 1 , 2 ] } ,\r\n
        \"last_transaction\" : { \"km_from_current\" : 5 , \"timestamp\" : \"u\" } ,
        \"terminal\" : { \"km_from_home\" : 4 , \"is_online\" : true , \"card_present\" : false } ,
        \"merchant\" : { \"avg_amount\" : 1 , \"id\" : \"M\" , \"mcc\" : \"5411\" } ,
        \"customer\" : { \"known_merchants\" : [ \"A\" , \"B\" ] , \"tx_count_24h\" : 1 , \"avg_amount\" : 2 } ,
        \"transaction\" : { \"requested_at\" : \"t\" , \"amount\" : 7.5 , \"installments\" : 3 } }  ";
    let a = parse_transaction(tight).unwrap();
    let b = parse_transaction(loose).unwrap();
    assert!(same(&a, &b));
    assert_eq!(b.amount, b"7.5");
    assert_eq!(b.known_merchants_len, 2);
    assert_eq!(b.last_timestamp, Some(&b"u"[..]));

    let first = br#"{"merchant":{"id":"M","note":"\n"},"transaction":{"requested_at":"t"}}"#;
    let last = br#"{ "transaction" : {"requested_at":"t"}, "merchant" : { "note" : "\n", "id" : "M" } }"#;
    assert!(parse_transaction(first).is_none());
    assert!(parse_transaction(last).is_none());
}

#[test]
fn unknown_members_are_passed_over() {
    let one = format!(
        r#"{{"transaction":{{"amount":7,"installments":1,"requested_at":"t"}},{HEAD},{CUSTOMER}}}"#
    );
    let two = format!(
        r#"{{"x":[1,{{"y":null}},"z",true,false,-1.5e3],"transaction":{{"amount":7,"note":{{"a":[]}},"installments":1,"requested_at":"t"}},{HEAD},{CUSTOMER}}}"#
    );
    let a = parse_transaction(one.as_bytes()).unwrap();
    let b = parse_transaction(two.as_bytes()).unwrap();
    assert!(same(&a, &b));
}

#[test]
fn what_follows_the_payload_does_not_matter() {
    let mut longer = SAMPLE.to_vec();
    longer.extend_from_slice(b"}} trailing [");
    let a = parse_transaction(SAMPLE).unwrap();
    let b = parse_transaction(&longer).unwrap();
    assert!(same(&a, &b));
}

#[test]
fn broken_payloads_are_refused() {
    for payload in [
        &b""[..],
        b"[]",
        b"{",
        b"{\"transaction\":{\"amount\":}}",
        b"{\"transaction\":{\"amount\":1,}}",
        b"{\"transaction\" {}}",
        b"{\"terminal\":{\"is_online\":maybe}}",
        b"{\"last_transaction\":7}",
        b"{\"merchant\":{\"id\":\"open}",
        b"nonsense",
    ] {
        assert!(parse_transaction(payload).is_none());
    }
}

#[test]
fn merchants_beyond_the_limit_are_dropped() {
    let names: Vec<String> = (0..70).map(|i| format!("\"M{i}\"")).collect();
    let payload = format!(
        r#"{{"transaction":{{"amount":7,"installments":1,"requested_at":"t"}},{HEAD},"customer":{{"avg_amount":2,"tx_count_24h":1,"known_merchants":[{}]}}}}"#,
        names.join(",")
    );
    let parsed = parse_transaction(payload.as_bytes()).unwrap();
    assert_eq!(parsed.known_merchants_len, 64);
    assert_eq!(parsed.known_merchants[63], b"M63");
}

#[test]
fn numerals_are_taken_as_they_stand() {
    let payload = format!(
        r#"{{"transaction":{{"amount": -12.50e+2 ,"installments":3.9,"requested_at":"t"}},{HEAD},{CUSTOMER}}}"#
    );
    let parsed = parse_transaction(payload.as_bytes()).unwrap();
    assert_eq!(parsed.amount, b"-12.50e+2");
    assert_eq!(float(parsed.amount), -1250.0);
    assert_eq!(integer(parsed.installments), 3);
}

#[test]
fn categories_are_numbers_or_none() {
    assert_eq!(parse_usize_ascii(b"5411"), 5411);
    assert_eq!(parse_usize_ascii(b""), 0);
    assert_eq!(parse_usize_ascii(b"54x1"), usize::MAX);
    assert_eq!(parse_usize_ascii(b"99999999999999999999999999"), usize::MAX);
}

#[test]
fn numerals_are_those_that_have_a_value() {
    for numeral in [
        "0", "-0", "12", "1.", ".5", "-.5", "1.5", "1e3", "1E-3", "1e+3", "1.e2", ".", "-", "-.",
        "1e", "1e+", "e3", "--1", "+1", "1..2", "",
    ] {
        let payload = format!(
            r#"{{"transaction":{{"amount":{numeral},"installments":1,"requested_at":"t"}},{HEAD},{CUSTOMER}}}"#
        );
        let plain = numeral.parse::<f32>().is_ok() && !numeral.starts_with('+');
        assert_eq!(parse_transaction(payload.as_bytes()).is_some(), plain, "{numeral}");
    }
}

#[test]
fn what_looks_like_a_numeral_is_passed_over() {
    for (input, numeral, behind) in [
        (&b" -e5,"[..], None, 4),
        (b"-.E+7]", None, 5),
        (b"1e", None, 2),
        (b"x", None, 0),
        (b"-1.5e3,", Some(&b"-1.5e3"[..]), 6),
        (b" .5 ", Some(b".5"), 3),
    ] {
        let mut parser = Parser { input, pos: 0 };
        assert_eq!(parser.number(), numeral);
        assert_eq!(parser.pos, behind);
        let mut parser = Parser { input, pos: 0 };
        assert_eq!(parser.integer(), numeral);
        assert_eq!(parser.pos, behind);
    }
}
