use fraud_detection_api::balancer::{
    dispatch_step, next_first, tries_again, upstream_paths, AcceptBatch, AcceptOutcome,
    AcceptStep, DispatchStep, CONNECT_ATTEMPTS,
};
use fraud_detection_api::config::{
    mcc_table, parse_number, probes_setting, RiskEntry, CATEGORIES, DEFAULT_PROBES, UNKNOWN_RISK,
};
use fraud_detection_api::evaluation::{
    best_of, is_approved, is_better, is_plausible_index, tally, weighted_errors,
};

#[test]
fn clients_go_round_the_upstreams() {
    let mut rr = 0;
    let firsts: Vec<usize> = (0..5).map(|_| next_first(&mut rr, 3)).collect();
    assert_eq!(firsts, vec![0, 1, 2, 0, 1]);
    let mut end = usize::MAX;
    assert_eq!(next_first(&mut end, 4), 3);
    assert_eq!(end, 0);
}

#[test]
fn every_upstream_is_offered_a_client() {
    let steps: Vec<DispatchStep> = (0..5).map(|tried| dispatch_step(2, tried, false, 4)).collect();
    assert_eq!(
        steps,
        vec![
            DispatchStep::Offer(2),
            DispatchStep::Offer(3),
            DispatchStep::Offer(0),
            DispatchStep::Offer(1),
            DispatchStep::Insist(2),
        ]
    );
    assert_eq!(dispatch_step(2, 1, true, 4), DispatchStep::Done);
}

#[test]
fn accepts_come_in_batches() {
    let mut batch = AcceptBatch::new(2);
    assert!(batch.wants_more() && batch.is_idle());
    assert_eq!(batch.on_accept(AcceptOutcome::Interrupted), AcceptStep::Retry);
    assert!(batch.is_idle());
    assert_eq!(batch.on_accept(AcceptOutcome::Accepted(8)), AcceptStep::Dispatch(8));
    assert!(batch.wants_more() && !batch.is_idle());
    assert_eq!(batch.on_accept(AcceptOutcome::WouldBlock), AcceptStep::EndBatch);
    assert_eq!(batch.on_accept(AcceptOutcome::Failed), AcceptStep::Fail);
    assert_eq!(batch.on_accept(AcceptOutcome::Accepted(9)), AcceptStep::Dispatch(9));
    assert!(!batch.wants_more());
    assert!(!AcceptBatch::new(0).wants_more());
}

#[test]
fn connecting_is_tried_so_often() {
    assert!(tries_again(0));
    assert!(tries_again(CONNECT_ATTEMPTS - 1));
    assert!(!tries_again(CONNECT_ATTEMPTS));
    assert_eq!(CONNECT_ATTEMPTS, 200);
}

#[test]
fn upstreams_stand_between_commas() {
    let paths = |text: &str| -> Vec<String> {
        upstream_paths(text.as_bytes())
            .into_iter()
            .map(|path| String::from_utf8(path).unwrap())
            .collect()
    };
    assert_eq!(
        paths("/tmp/sock/api1.sock,/tmp/sock/api2.sock"),
        vec!["/tmp/sock/api1.sock", "/tmp/sock/api2.sock"]
    );
    assert_eq!(paths(",a,,b,"), vec!["a", "b"]);
    assert!(paths("").is_empty());
    assert!(paths(",,").is_empty());
    for text in ["x", "a,b", ",", "a,,b,c,", " ,é"] {
        let expected: Vec<String> = text
            .split(',')
            .filter(|path| !path.is_empty())
            .map(str::to_string)
            .collect();
        assert_eq!(paths(text), expected);
    }
}

#[test]
fn numbers_in_text() {
    for text in [
        "0", "192", "+7", "", "+", "-1", "1x", " 1", "18446744073709551615",
        "18446744073709551616", "000012", "++1",
    ] {
        assert_eq!(parse_number(text.as_bytes()), text.parse::<usize>().ok());
    }
    assert_eq!(probes_setting(None), DEFAULT_PROBES);
    assert_eq!(probes_setting(Some(b"96")), 96);
    assert_eq!(probes_setting(Some(b"many")), 192);
}

#[test]
fn risks_by_category() {
    let entry = |category: &str, risk: f32| RiskEntry {
        category: category.as_bytes().to_vec(),
        risk: risk.to_bits(),
    };
    let table = mcc_table(&vec![
        entry("5411", 0.15),
        entry("x", 0.9),
        entry("10000", 0.9),
        entry("5411", 0.25),
        entry("0", 0.75),
    ]);
    assert_eq!(table.len(), CATEGORIES);
    assert_eq!(f32::from_bits(table[5411]), 0.25);
    assert_eq!(f32::from_bits(table[0]), 0.75);
    assert_eq!(table[1], UNKNOWN_RISK);
    assert_eq!(table[9999], 0.5f32.to_bits());
}

#[test]
fn scores_under_the_threshold_are_approved() {
    for frauds in 0..=5usize {
        assert_eq!(is_approved(frauds), (frauds as f32 / 5.0) < 0.6);
    }
}

#[test]
fn outcomes_are_counted() {
    let t = tally(&vec![
        (0, true),
        (5, false),
        (3, true),
        (2, false),
        (2, false),
        (2, true),
    ]);
    assert_eq!((t.tp, t.tn, t.fp, t.fn_), (1, 2, 1, 2));
    assert_eq!(t.histogram, [1, 0, 3, 1, 0, 1]);
    assert_eq!(weighted_errors(&t), 7);
    assert_eq!(t.tp + t.tn + t.fp + t.fn_, 6);
    assert_eq!(t.histogram.iter().sum::<usize>(), 6);
}

#[test]
fn settings_are_ordered_by_errors_then_latency() {
    let latencies = [-f64::NAN, f64::NEG_INFINITY, -1.0, -0.0, 0.0, 2.5, f64::INFINITY, f64::NAN];
    for a in latencies {
        for b in latencies {
            assert_eq!(
                is_better(1, a.to_bits(), 1, b.to_bits()),
                a.total_cmp(&b).is_lt()
            );
            assert!(is_better(1, a.to_bits(), 2, b.to_bits()));
            assert!(!is_better(2, a.to_bits(), 1, b.to_bits()));
        }
    }
    let bits = |v: f64| v.to_bits();
    assert_eq!(
        best_of(&vec![(3, bits(1.0)), (1, bits(9.0)), (1, bits(4.0)), (1, bits(4.0))]),
        Some(2)
    );
    assert_eq!(best_of(&Vec::new()), None);
}

#[test]
fn small_files_are_no_indexes() {
    assert!(!is_plausible_index(1023));
    assert!(is_plausible_index(1024));
}
