use xyzdb_engine::ast::{Filter, FilterExpr, FilterOp as AstOp, Literal};
use xyzdb_engine::ghost_router::{GhostRouter, ScanSource};
use xyzdb_engine::record::FilterOp;
use xyzdb_engine::value::Value;

fn int_val(n: i64) -> Value {
    Value::Int(n)
}

fn text_val(s: &str) -> Value {
    Value::Text(s.to_string())
}

fn eq(field: &str, value: Value) -> (String, FilterOp, Value) {
    (field.to_string(), FilterOp::Eq, value)
}

fn is_ghost(src: &ScanSource, expected: &str) -> bool {
    matches!(src, ScanSource::GhostRecords(name) if name == expected)
}

fn is_precomputed(src: &ScanSource, expected: &str) -> bool {
    matches!(src, ScanSource::GhostPreComputed(name) if name == expected)
}

#[test]
fn eq_ghost_routes_on_matching_query() {
    let mut router = GhostRouter::new();
    router.register_ghost(
        "g_eq",
        vec![eq("status", text_val("active"))],
        String::new(),
        false,
        false,
        vec![],
    );
    let src = router.plan_scan(
        &[eq("status", text_val("active"))],
        true,
        None,
        false,
        &[],
        false,
        None,
        None,
    );
    assert!(is_ghost(&src, "g_eq"));
}

#[test]
fn gt_ghost_routes_on_matching_gt_query() {
    let mut router = GhostRouter::new();
    router.register_ghost(
        "g_gt",
        vec![("score".to_string(), FilterOp::Gt, int_val(650))],
        String::new(),
        false,
        false,
        vec![],
    );
    let src = router.plan_scan(
        &[("score".to_string(), FilterOp::Gt, int_val(650))],
        true,
        None,
        false,
        &[],
        false,
        None,
        None,
    );
    assert!(is_ghost(&src, "g_gt"));
}

#[test]
fn contains_ghost_routes_on_matching_contains_query() {
    let mut router = GhostRouter::new();
    router.register_ghost(
        "g_contains",
        vec![("tags".to_string(), FilterOp::Contains, text_val("urgent"))],
        String::new(),
        false,
        false,
        vec![],
    );
    let src = router.plan_scan(
        &[("tags".to_string(), FilterOp::Contains, text_val("urgent"))],
        true,
        None,
        false,
        &[],
        false,
        None,
        None,
    );
    assert!(is_ghost(&src, "g_contains"));
}

#[test]
fn eq_ghost_does_not_route_gt_query() {
    let mut router = GhostRouter::new();
    router.register_ghost(
        "g_eq",
        vec![eq("score", int_val(650))],
        String::new(),
        false,
        false,
        vec![],
    );
    let src = router.plan_scan(
        &[("score".to_string(), FilterOp::Gt, int_val(650))],
        true,
        None,
        false,
        &[],
        false,
        None,
        None,
    );
    assert!(matches!(src, ScanSource::Primary));
}

fn or_expr() -> FilterExpr {
    FilterExpr::Or(vec![
        FilterExpr::Condition(Filter {
            field: "a".to_string(),
            op: AstOp::Eq,
            value: Literal::Int(1),
        }),
        FilterExpr::Condition(Filter {
            field: "b".to_string(),
            op: AstOp::Eq,
            value: Literal::Int(2),
        }),
    ])
}

#[test]
fn or_ghost_routes_by_structural_match() {
    let mut router = GhostRouter::new();
    router.register_ghost("g_or", vec![], String::new(), false, false, vec![]);
    router.set_filter("g_or", or_expr());
    let q = or_expr();
    let src = router.plan_scan(&[], true, None, false, &[], false, Some(&q), None);
    assert!(is_ghost(&src, "g_or"));
}

#[test]
fn another_or_query_does_not_route_to_an_or_ghost() {
    let mut router = GhostRouter::new();
    router.register_ghost("g_or", vec![], String::new(), false, false, vec![]);
    router.set_filter("g_or", or_expr());
    let q = FilterExpr::Or(vec![FilterExpr::Condition(Filter {
        field: "a".to_string(),
        op: AstOp::Eq,
        value: Literal::Int(2),
    })]);
    let src = router.plan_scan(&[], true, None, false, &[], false, Some(&q), None);
    assert!(matches!(src, ScanSource::Primary));
}

#[test]
fn filter_desc_mismatch_falls_through_to_tuple() {
    let mut router = GhostRouter::new();
    router.register_ghost("g_bare", vec![], String::new(), false, false, vec![]);
    let src = router.plan_scan(
        &[eq("x", int_val(1))],
        true,
        None,
        false,
        &[],
        false,
        None,
        None,
    );
    assert!(matches!(src, ScanSource::GhostRecords(_)));
}

#[test]
fn filter_only_ghost_never_routes_to_precomputed() {
    let mut router = GhostRouter::new();
    router.register_ghost(
        "g_no_agg",
        vec![eq("status", text_val("active"))],
        String::new(),
        false,
        false,
        vec![],
    );
    let src = router.plan_scan(
        &[eq("status", text_val("active"))],
        true,
        None,
        true,
        &[],
        false,
        None,
        None,
    );
    assert!(!matches!(src, ScanSource::GhostPreComputed(_)));
}

#[test]
fn not_ready_ghost_does_not_route() {
    let mut router = GhostRouter::new();
    router.register_ghost(
        "g",
        vec![eq("x", int_val(1))],
        String::new(),
        false,
        false,
        vec![],
    );
    router.set_ghost_ready("g", false);
    let src = router.plan_scan(
        &[eq("x", int_val(1))],
        true,
        None,
        false,
        &[],
        false,
        None,
        None,
    );
    assert!(matches!(src, ScanSource::Primary));
}

#[test]
fn anchor_eq_overrides_ghost_match_to_primary() {
    let mut router = GhostRouter::new();
    router.register_ghost(
        "credits_by_rfc",
        vec![eq("_type", text_val("Credit"))],
        String::new(),
        false,
        true,
        vec!["rfc".to_string()],
    );
    let anchored = vec!["rfc".to_string()];
    let src = router.plan_scan(
        &[
            eq("_type", text_val("Credit")),
            eq("rfc", text_val("ACME-001")),
        ],
        true,
        None,
        true,
        &["rfc".to_string()],
        false,
        None,
        Some(&anchored),
    );
    assert!(matches!(src, ScanSource::Primary));
}

#[test]
fn no_anchor_on_filter_keeps_precomputed() {
    let mut router = GhostRouter::new();
    router.register_ghost(
        "credits_agg",
        vec![eq("_type", text_val("Credit"))],
        String::new(),
        false,
        true,
        vec!["rfc".to_string()],
    );
    let anchored = vec!["rfc".to_string()];
    let src = router.plan_scan(
        &[eq("_type", text_val("Credit"))],
        true,
        None,
        true,
        &["rfc".to_string()],
        false,
        None,
        Some(&anchored),
    );
    assert!(is_precomputed(&src, "credits_agg"));
}

#[test]
fn anchor_outside_filter_keeps_ghost_eligible() {
    let mut router = GhostRouter::new();
    router.register_ghost(
        "g_status",
        vec![eq("status", text_val("active"))],
        String::new(),
        false,
        false,
        vec![],
    );
    let anchored = vec!["rfc".to_string()];
    let src = router.plan_scan(
        &[eq("status", text_val("active"))],
        true,
        None,
        false,
        &[],
        false,
        None,
        Some(&anchored),
    );
    assert!(is_ghost(&src, "g_status"));
}

#[test]
fn global_aggregate_ghost_routes_to_precomputed() {
    let mut router = GhostRouter::new();
    router.register_ghost(
        "g_global",
        vec![eq("status", text_val("active"))],
        String::new(),
        false,
        true,
        vec![],
    );
    let src = router.plan_scan(
        &[eq("status", text_val("active"))],
        true,
        None,
        true,
        &[],
        false,
        None,
        None,
    );
    assert!(is_precomputed(&src, "g_global"));
}

#[test]
fn grouped_ghost_never_serves_a_record_scan() {
    let mut router = GhostRouter::new();
    router.register_ghost(
        "by_g",
        vec![],
        String::new(),
        false,
        true,
        vec!["g".to_string()],
    );
    let src = router.plan_scan(
        &[eq("g", int_val(1)), eq("t", text_val("k"))],
        true,
        None,
        false,
        &[],
        false,
        None,
        None,
    );
    assert!(matches!(src, ScanSource::Primary));
}

#[test]
fn projection_ghost_never_serves_a_record_scan() {
    let mut router = GhostRouter::new();
    router.register_ghost("p", vec![], String::new(), false, false, vec![]);
    router.set_has_projection("p", true);
    let src = router.plan_scan(&[], true, None, false, &[], false, None, None);
    assert!(matches!(src, ScanSource::Primary));
}

#[test]
fn ordered_ghost_serves_its_order_with_a_limit() {
    let mut router = GhostRouter::new();
    router.register_ghost("o", vec![], "ts".to_string(), true, false, vec![]);
    let with_limit = router.plan_scan(
        &[],
        true,
        Some(("ts", true)),
        false,
        &[],
        true,
        None,
        None,
    );
    assert!(is_ghost(&with_limit, "o"));
    let other_direction = router.plan_scan(
        &[],
        true,
        Some(("ts", false)),
        false,
        &[],
        true,
        None,
        None,
    );
    assert!(matches!(other_direction, ScanSource::Primary));
    let without_limit = router.plan_scan(
        &[],
        true,
        Some(("ts", true)),
        false,
        &[],
        false,
        None,
        None,
    );
    assert!(matches!(without_limit, ScanSource::Primary));
}

#[test]
fn renamed_ghost_keeps_its_route() {
    let mut router = GhostRouter::new();
    router.register_ghost("auto_x", vec![], String::new(), false, false, vec![]);
    router.set_filter_desc("auto_x", "x=1".to_string());
    assert!(router.rename_ghost("auto_x", "promoted_x"));
    assert!(!router.rename_ghost("auto_x", "other"));
    assert_eq!(router.get_filter_desc("promoted_x"), Some("x=1"));
    assert_eq!(router.get_filter_desc("auto_x"), None);
    assert!(router.has_ghosts());
    router.unregister_ghost("promoted_x");
    assert!(!router.has_ghosts());
}

#[test]
fn writes_are_counted() {
    let mut router = GhostRouter::new();
    router.record_writes(3);
    router.record_writes(4);
    assert_eq!(router.total_writes(), 7);
    router.set_total_writes(100);
    assert_eq!(router.total_writes(), 100);
}

#[test]
fn aggregate_signature_must_cover_the_query() {
    let mut router = GhostRouter::new();
    router.register_ghost("a", vec![], String::new(), false, true, vec![]);
    router.set_aggregate_sig("a", vec!["count".to_string(), "sum(m)".to_string()]);
    assert!(router.aggregate_sig_covers("a", &["sum(m)".to_string()]));
    assert!(!router.aggregate_sig_covers("a", &["max(m)".to_string()]));
    assert!(!router.aggregate_sig_covers("b", &["sum(m)".to_string()]));
}

#[test]
fn a_disjunction_is_not_answered_from_all_members() {
    let condition = |field: &str, n: i64| {
        FilterExpr::Condition(Filter {
            field: field.to_string(),
            op: AstOp::Eq,
            value: Literal::Int(n),
        })
    };
    let mut r = GhostRouter::new();
    r.register_ghost("g_all", vec![], String::new(), false, true, vec![]);
    let or = FilterExpr::Or(vec![condition("a", 1), condition("b", 2)]);
    let src = r.plan_scan(&[], true, None, true, &[], false, Some(&or), None);
    assert!(matches!(src, ScanSource::Primary));
    let not = FilterExpr::Not(Box::new(condition("a", 1)));
    let src = r.plan_scan(&[], true, None, true, &[], false, Some(&not), None);
    assert!(matches!(src, ScanSource::Primary));
    let src = r.plan_scan(&[], true, None, true, &[], false, None, None);
    assert!(is_precomputed(&src, "g_all"));
}
