use xyzdb_engine::ast::{Filter, FilterOp, Literal};
use xyzdb_engine::scan_telemetry::{ScanTelemetry, ScanTelemetryRegistry};

fn telemetry(filter_desc: &str, source: &str, latency_ms: f64) -> ScanTelemetry {
    ScanTelemetry {
        lobe: "data".to_string(),
        filter_desc: filter_desc.to_string(),
        source: source.to_string(),
        records_scanned: 0,
        records_returned: 0,
        duration_ms: latency_ms.to_bits(),
    }
}

/// The mean of `n` latencies with a known mean and one more.
fn average(mean: u64, n: u64, latency: u64) -> u64 {
    let m = f64::from_bits(mean);
    let x = f64::from_bits(latency);
    ((m * n as f64 + x) / (n + 1) as f64).to_bits()
}

fn one_decimal(x: u64) -> String {
    format!("{:.1}", f64::from_bits(x))
}

fn condition() -> Vec<Filter> {
    vec![Filter { field: "f".to_string(), op: FilterOp::Eq, value: Literal::Int(1) }]
}

#[test]
fn record_routed_leaves_patterns_untouched() {
    let mut store = ScanTelemetryRegistry::new();
    let filters: Vec<Filter> = vec![];
    let _ = store.record_with_filters(
        telemetry("status=active", "primary", 100.0),
        &filters,
        &[],
        0,
        &average,
    );
    assert_eq!(store.pattern_count(), 1, "primary scan seeds the pattern");
    let (hits_before, avg_before) = store.pattern_load("status=active").unwrap();
    for _ in 0..10 {
        store.record_routed(telemetry("status=active", "ghost:auto_x", 0.5));
    }
    let (hits_after, avg_after) = store.pattern_load("status=active").unwrap();
    assert_eq!(
        hits_before, hits_after,
        "record_routed must not bump hit_count"
    );
    assert!(
        (f64::from_bits(avg_before) - f64::from_bits(avg_after)).abs() < f64::EPSILON,
        "record_routed must not perturb avg_latency_ms"
    );
    assert_eq!(store.recent_count(), 11, "1 primary + 10 routed in recent");
}

#[test]
fn set_ghost_flag_round_trips() {
    let mut store = ScanTelemetryRegistry::new();
    let filters: Vec<Filter> = vec![];
    store.record_with_filters(telemetry("f=x", "primary", 1.0), &filters, &[], 0, &average);
    assert_eq!(store.has_ghost_flag("f=x"), Some(false));
    store.set_ghost_flag("f=x", true);
    assert_eq!(store.has_ghost_flag("f=x"), Some(true));
    store.set_ghost_flag("f=x", false);
    assert_eq!(store.has_ghost_flag("f=x"), Some(false));
}

#[test]
fn set_ghost_flag_missing_pattern_is_noop() {
    let mut store = ScanTelemetryRegistry::new();
    store.set_ghost_flag("never_recorded", false);
    assert_eq!(store.has_ghost_flag("never_recorded"), None);
}

#[test]
fn record_routed_bounds_recent_to_1000_entries() {
    let mut store = ScanTelemetryRegistry::new();
    for i in 0..1050 {
        store.record_routed(telemetry(&format!("f{i}"), "ghost:g", 1.0));
    }
    assert_eq!(store.recent_count(), 1000, "recent is capped at 1000");
}

#[test]
fn the_fifth_slow_hit_makes_a_candidate_once() {
    let mut store = ScanTelemetryRegistry::new();
    let filters = condition();
    for i in 0..4 {
        assert!(store
            .record_with_filters(
                telemetry("f=1", "primary", 20.0),
                &filters,
                &["m".to_string()],
                i,
                &average
            )
            .is_none());
    }
    let c = store
        .record_with_filters(
            telemetry("f=1", "primary", 20.0),
            &filters,
            &["n".to_string(), "m".to_string()],
            4,
            &average,
        )
        .unwrap();
    assert_eq!(c.lobe, "data");
    assert_eq!(c.filter_desc, "f=1");
    assert_eq!(c.filters.len(), 1);
    assert_eq!(c.aggregate_fields, vec!["m".to_string(), "n".to_string()]);
    assert_eq!(store.has_ghost_flag("f=1"), Some(true));
    assert!(store
        .record_with_filters(telemetry("f=1", "primary", 20.0), &filters, &[], 5, &average)
        .is_none());
    store.set_ghost_flag("f=1", false);
    assert!(store
        .record_with_filters(telemetry("f=1", "primary", 20.0), &filters, &[], 6, &average)
        .is_some());
}

#[test]
fn fast_rare_and_unfiltered_patterns_make_no_candidate() {
    let filters = condition();
    let mut fast = ScanTelemetryRegistry::new();
    let mut rare = ScanTelemetryRegistry::new();
    let mut unfiltered = ScanTelemetryRegistry::new();
    for i in 0..10u64 {
        assert!(fast
            .record_with_filters(telemetry("f=1", "p", 19.9), &filters, &[], i, &average)
            .is_none());
        // One hit every ten minutes.
        assert!(rare
            .record_with_filters(
                telemetry("f=1", "p", 50.0),
                &filters,
                &[],
                i * 600_000_000,
                &average
            )
            .is_none());
        assert!(unfiltered
            .record_with_filters(telemetry("", "p", 50.0), &[].into(), &[], i, &average)
            .is_none());
    }
}

#[test]
fn thresholds_can_be_set() {
    let mut store = ScanTelemetryRegistry::new();
    store.set_thresholds(1, 0.0f64.to_bits());
    let filters = condition();
    assert!(store
        .record_with_filters(telemetry("f=1", "p", 0.0), &filters, &[], 0, &average)
        .is_some());
    store.set_min_hits(2);
    store.set_min_latency_ms(5.0f64.to_bits());
    assert!(store
        .record_with_filters(telemetry("f=2", "p", 9.0), &filters, &[], 0, &average)
        .is_none());
    assert!(store
        .record_with_filters(telemetry("f=2", "p", 9.0), &filters, &[], 1, &average)
        .is_some());
}

#[test]
fn the_report_lists_slow_patterns_and_the_last_scans() {
    let mut store = ScanTelemetryRegistry::new();
    assert_eq!(
        store.format_stats(&one_decimal),
        vec!["Scan Statistics:".to_string(), "  No scans recorded yet.".to_string()]
    );
    for _ in 0..3 {
        store.record(telemetry("slow", "primary", 150.0), &average);
        store.record(telemetry("slower", "primary", 250.0), &average);
        store.record(telemetry("fine", "primary", 100.0), &average);
    }
    store.set_ghost_flag("slow", true);
    let lines = store.format_stats(&one_decimal);
    assert_eq!(lines[1], "  Total scans recorded: 9");
    assert_eq!(lines[3], "  Slow scan patterns (avg > 100ms):");
    assert_eq!(lines[4], "    slower — 3 times, avg 250.0ms");
    assert_eq!(lines[5], "    slow — 3 times, avg 150.0ms [auto-ghost]");
    assert_eq!(lines[6], "");
    assert_eq!(lines[7], "  Recent scans:");
    assert_eq!(lines[8], "    data | primary | 0/0 records | 100.0ms");
    assert_eq!(lines.len(), 13);
}
