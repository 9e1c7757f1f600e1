use replog::checker::History;

#[test]
fn clean_history_passes() {
    let mut h = History::new();
    for id in 0..10 {
        h.record_produced(id, "t");
        h.record_consumed("c1", 1, "t", 0, id, id);
    }
    let report = h.verify();
    assert!(report.is_ok(), "{}", report.text());
    assert_eq!(report.duplicate_deliveries, 0);
}

#[test]
fn missing_id_is_a_violation() {
    let mut h = History::new();
    h.record_produced(1, "t");
    h.record_produced(2, "t");
    h.record_consumed("c1", 1, "t", 0, 0, 1);
    let report = h.verify();
    assert!(!report.is_ok());
    assert_eq!(report.missing_ids, vec![2]);
}

#[test]
fn duplicates_are_counted_not_fatal() {
    let mut h = History::new();
    h.record_produced(1, "t");
    h.record_consumed("c1", 1, "t", 0, 0, 1);
    h.record_consumed("c2", 1, "t", 0, 0, 1);
    let report = h.verify();
    assert!(report.is_ok(), "{}", report.text());
    assert_eq!(report.duplicate_deliveries, 1);
}

#[test]
fn rewind_within_generation_and_divergence_are_violations() {
    let mut h = History::new();
    h.record_produced(1, "t");
    h.record_produced(2, "t");
    h.record_consumed("c1", 3, "t", 0, 5, 1);
    h.record_consumed("c1", 3, "t", 0, 5, 1); // same gen, same offset: rewind
    h.record_consumed("c2", 3, "t", 0, 5, 2); // same offset, different id
    let report = h.verify();
    assert_eq!(report.monotonicity_violations.len(), 1);
    assert_eq!(report.divergent_offsets.len(), 1);
}

#[test]
fn rewind_across_generations_is_legal_redelivery() {
    let mut h = History::new();
    h.record_produced(1, "t");
    h.record_consumed("c1", 3, "t", 0, 5, 1);
    h.record_consumed("c1", 4, "t", 0, 5, 1); // rebalance: rewound to commit
    let report = h.verify();
    assert!(report.is_ok(), "{}", report.text());
    assert_eq!(report.duplicate_deliveries, 1);
}

#[test]
fn planted_gap_is_caught_only_by_from_start() {
    let mut h = History::new();
    for offset in [0u64, 1, 3] {
        // offset 2 never consumed
        h.record_produced(offset, "t");
        h.record_consumed("c1", 0, "t", 0, offset, offset);
    }
    assert!(h.verify().offset_gaps.is_empty());
    let report = h.verify_from_start();
    assert_eq!(report.offset_gaps.len(), 1, "{}", report.text());
    assert!(report.offset_gaps[0].contains("first hole at 2"));
    assert!(!report.is_ok());
}

#[test]
fn history_file_roundtrip_preserves_verdict() {
    let mut h = History::new();
    for id in 0..50u64 {
        h.record_produced(id, "t");
        h.record_consumed("reader-a", 0, "t", (id % 2) as u32, id / 2, id);
    }
    h.record_produced(999, "t"); // never consumed: a violation to preserve
    let text = h.save();
    let loaded = History::load(&text).unwrap();
    let (a, b) = (h.verify_from_start(), loaded.verify_from_start());
    assert_eq!(a.produced_acked, b.produced_acked);
    assert_eq!(a.consumed_total, b.consumed_total);
    assert_eq!(a.missing_ids, b.missing_ids);
    assert_eq!(a.missing_ids, vec![999]);
    assert_eq!(a.duplicate_deliveries, b.duplicate_deliveries);
    assert_eq!(a.offset_gaps, b.offset_gaps);
}

#[test]
fn a_report_says_what_is_wrong() {
    let mut h = History::new();
    for id in 0..3 {
        h.record_produced(id, "t");
    }
    h.record_consumed("a", 0, "t", 0, 0, 0);
    h.record_consumed("a", 0, "t", 0, 2, 2);
    assert!(h.is_countable());
    let report = h.verify_from_start();
    assert!(!report.is_ok());
    let text = report.text();
    assert!(text.starts_with(
        "checker: 3 acked, 2 consumed (2 distinct), 0 duplicate deliveries\n  \
         at-least-once: VIOLATED — 1 acked ids never consumed (first few: [1])\n  \
         gap-free: VIOLATED — "
    ));
    assert_eq!(text.lines().count(), 3);
    h.record_consumed("a", 0, "t", 0, u64::MAX, 1);
    assert!(!h.is_countable());
}

#[test]
fn a_malformed_history_is_refused() {
    assert!(History::load("P 1 t\n\nC a 0 t 0 0 1\n").is_ok());
    match History::load("P 1 t\nQ 2\n") {
        Err(text) => assert_eq!(text, "malformed history line: Q 2"),
        Ok(_) => panic!("loaded"),
    }
}
