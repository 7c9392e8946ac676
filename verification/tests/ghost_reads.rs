use xyzdb_engine::aggregate_state::{AggregateState, Summaries};
use xyzdb_engine::ast::FilterExpr;
use xyzdb_engine::ghost_keys::{rollup_ghost_prefix, rollup_key};
use xyzdb_engine::ghost_meta::{
    AccessTelemetry, AggregateContent, AutoClass, GhostLifecycle, GhostMeta, Grouping,
    MetricOrder, Residency,
};
use xyzdb_engine::ghost_read::{read_topn_metric, GhostAggregates, Precomputed};
use xyzdb_engine::metric_order::RowOps;
use xyzdb_engine::record::FilterOp;
use xyzdb_engine::sorted_map::SortedMap;
use xyzdb_engine::value::Value;

fn fragment(v: &Value) -> String {
    match v {
        Value::Text(s) => s.clone(),
        _ => "?".to_string(),
    }
}

fn join_key(parts: &Vec<String>) -> String {
    parts.join("|")
}

fn split_key(k: &str) -> Vec<String> {
    k.split('|').map(|s| s.to_string()).collect()
}

fn fragment_value(s: &str) -> Value {
    Value::Text(s.to_string())
}

fn results(s: &AggregateState) -> Vec<(String, Value)> {
    vec![("count".to_string(), Value::Int(s.count))]
}

fn encode(s: &AggregateState) -> Vec<u8> {
    s.count.to_be_bytes().to_vec()
}

fn decode(b: &[u8]) -> Option<AggregateState> {
    let a: [u8; 8] = b.try_into().ok()?;
    Some(state(i64::from_be_bytes(a)))
}

fn state(count: i64) -> AggregateState {
    AggregateState { count, dirty: false, body: vec![] }
}

type Rows = RowOps<
    fn(&Value) -> String,
    fn(&Vec<String>) -> String,
    fn(&str) -> Vec<String>,
    fn(&str) -> Value,
    fn(&AggregateState) -> Vec<(String, Value)>,
    fn(&Value) -> String,
    fn(&AggregateState) -> Vec<u8>,
    fn(&[u8]) -> Option<AggregateState>,
>;

fn rows() -> Rows {
    RowOps {
        fragment,
        join_key,
        split_key,
        fragment_value,
        results,
        show: fragment,
        encode,
        decode,
    }
}

fn names(v: &[&str]) -> Vec<String> {
    v.iter().map(|s| s.to_string()).collect()
}

fn meta(residency: Residency) -> GhostMeta {
    GhostMeta {
        name: "g".to_string(),
        ghost_id: 9,
        version: 2,
        lobe_id: 1,
        source_lobe: "data".to_string(),
        filter: FilterExpr::And(vec![]),
        order_by_field: String::new(),
        sort_inverted: false,
        metric_order: None,
        order_emitted_at: None,
        state: 1,
        index_count: 0,
        aggregate: Some(AggregateContent {
            aggregate_specs: vec![],
            global_aggregates: state(6),
            grouping: Grouping::from_fields(names(&["city", "kind"])),
            residency,
        }),
        projection: vec![],
        created_at: 0,
        last_accessed: 0,
        incremental_updates: 0,
        lifecycle: GhostLifecycle::Auto {
            class: AutoClass::Ephemeral,
            ttl_seconds: 86_400,
            telemetry: AccessTelemetry::default(),
        },
        core_filters_cache: None,
        maintenance_degraded: false,
    }
}

fn in_ram() -> GhostMeta {
    let mut m: Summaries = SortedMap::new();
    for (k, n) in [("lima|a", 1), ("lima|b", 2), ("rome|a", 3)] {
        m.insert(k.to_string(), state(n));
    }
    meta(Residency::InRam(m))
}

fn is(field: &str, v: &str) -> (String, FilterOp, Value) {
    (field.to_string(), FilterOp::Eq, Value::Text(v.to_string()))
}

fn counts(m: &Summaries) -> Vec<(String, i64)> {
    (0..m.len()).map(|i| (m.name_at(i).to_string(), m.value_at(i).count)).collect()
}

fn grouped(filters: &[(String, FilterOp, Value)]) -> Vec<(String, i64)> {
    match rows().read_precomputed(&in_ram(), &names(&["city", "kind"]), filters) {
        Precomputed::Ready(GhostAggregates::Grouped(m)) => counts(&m),
        _ => panic!("groups in memory"),
    }
}

#[test]
fn equalities_select_among_the_groups() {
    assert_eq!(grouped(&[]).len(), 3);
    assert_eq!(
        grouped(&[is("city", "lima")]),
        vec![("lima|a".to_string(), 1), ("lima|b".to_string(), 2)]
    );
    assert_eq!(grouped(&[is("kind", "a"), is("city", "rome")]), vec![("rome|a".to_string(), 3)]);
    assert_eq!(grouped(&[is("city", "rome"), is("kind", "b")]), vec![]);
    // A predicate on another field does not select groups.
    assert_eq!(grouped(&[is("other", "x")]).len(), 3);
}

#[test]
fn every_equality_on_a_group_field_counts() {
    assert_eq!(grouped(&[is("city", "lima"), is("city", "rome")]), vec![]);
    assert_eq!(grouped(&[is("city", "lima"), is("kind", "a"), is("kind", "b")]), vec![]);
    assert_eq!(grouped(&[is("city", "lima"), is("city", "lima")]).len(), 2);
}

#[test]
fn another_grouping_gets_the_total() {
    match rows().read_precomputed(&in_ram(), &names(&["city"]), &[]) {
        Precomputed::Ready(GhostAggregates::Global(s)) => assert_eq!(s.count, 6),
        _ => panic!("the total"),
    }
    let mut covering = in_ram();
    covering.aggregate = None;
    match rows().read_precomputed(&covering, &[], &[]) {
        Precomputed::Ready(GhostAggregates::Global(s)) => assert_eq!(s.count, 0),
        _ => panic!("nothing computed"),
    }
}

#[test]
fn groups_on_disk_are_read_from_their_rollups() {
    let by = names(&["city", "kind"]);
    let spilled = meta(Residency::Spilled);
    let pinned = [is("city", "lima"), is("kind", "a")];
    match rows().read_precomputed(&spilled, &by, &pinned) {
        Precomputed::Rollups { prefix, expected } => {
            assert_eq!(prefix, rollup_key(9, "lima|a"));
            assert_eq!(expected, vec![Some("lima".to_string()), Some("a".to_string())]);
        }
        _ => panic!("rollups"),
    }
    match rows().read_precomputed(&spilled, &by, &[is("city", "lima")]) {
        Precomputed::Rollups { prefix, expected } => {
            assert_eq!(prefix, rollup_ghost_prefix(9));
            let entries = vec![
                (rollup_key(9, "lima|a"), encode(&state(4))),
                (rollup_key(9, "lima|b"), encode(&state(0))),
                (rollup_key(9, "lima|c"), vec![1, 2]),
                (rollup_key(9, "rome|a"), encode(&state(5))),
            ];
            let m = rows().read_rollups(&entries, &expected);
            assert_eq!(counts(&m), vec![("lima|a".to_string(), 4)]);
        }
        _ => panic!("rollups"),
    }
}

#[test]
fn an_order_serves_only_its_own_metric() {
    let by = names(&["city", "kind"]);
    let mut g = in_ram();
    g.metric_order = Some(MetricOrder { label: "count".to_string(), descending: true });
    assert_eq!(read_topn_metric(&g, &by, "count", true), None);
    g.order_emitted_at = Some(1);
    assert_eq!(read_topn_metric(&g, &by, "count", true), Some(9));
    assert_eq!(read_topn_metric(&g, &by, "count", false), None);
    assert_eq!(read_topn_metric(&g, &by, "sum(m)", true), None);
    assert_eq!(read_topn_metric(&g, &names(&["city"]), "count", true), None);
}
