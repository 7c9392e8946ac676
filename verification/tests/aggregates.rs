use xyzdb_engine::aggregate::{
    canonical_label, resolve_label, resolve_labels, AggAccumulator, AggOps, Aggregate,
    AggregateFunc,
};
use xyzdb_engine::aggregate_state::AggregateState;
use xyzdb_engine::ast::{Filter, FilterExpr, FilterOp as AstOp, Literal};
use xyzdb_engine::error::XyzError;
use xyzdb_engine::group_aggregate::GroupAccumulator;
use xyzdb_engine::metric_order::{top_metric, RowOps};
use xyzdb_engine::planner::{TopBy, TopStmt};
use xyzdb_engine::record::{Fields, FilterOp, Record};
use xyzdb_engine::value::{values_equal, Value};

fn satisfies(r: &Record, p: &(String, FilterOp, Value)) -> bool {
    p.1 == FilterOp::Eq && matches!(r.fields.get(&p.0), Some(v) if values_equal(v, &p.2))
}

fn resolve(f: &Fields, path: &str) -> Option<Value> {
    f.get(path).map(|v| v.clone_value())
}

fn add(a: u64, b: u64) -> u64 {
    (f64::from_bits(a) + f64::from_bits(b)).to_bits()
}

fn sum(x: &[u64]) -> u64 {
    x.iter().map(|b| f64::from_bits(*b)).sum::<f64>().to_bits()
}

fn divide(a: u64, n: u64) -> u64 {
    (f64::from_bits(a) / n as f64).to_bits()
}

fn show_float(x: u64) -> String {
    f64::from_bits(x).to_string()
}

type Ops = AggOps<
    fn(&Record, &(String, FilterOp, Value)) -> bool,
    fn(&Fields, &str) -> Option<Value>,
    fn(u64, u64) -> u64,
    fn(&[u64]) -> u64,
    fn(u64, u64) -> u64,
    fn(u64) -> String,
>;

fn ops() -> Ops {
    AggOps { matches: satisfies, resolve, add, sum, divide, show_float }
}

fn record(g: &str, m: i64) -> Record {
    let mut fields = Fields::new();
    fields.insert("g".to_string(), Value::Text(g.to_string()));
    fields.insert("m".to_string(), Value::Int(m));
    Record { lid: 0, lobe_name: "l".to_string(), fields, created_at: 0, updated_at: 0 }
}

fn agg(func: AggregateFunc) -> Aggregate {
    Aggregate { func, alias: None, filter: None }
}

fn all() -> Vec<Aggregate> {
    let m = || "m".to_string();
    vec![
        agg(AggregateFunc::Count),
        agg(AggregateFunc::Sum(m())),
        agg(AggregateFunc::Avg(m())),
        agg(AggregateFunc::Min(m())),
        agg(AggregateFunc::Max(m())),
    ]
}

fn double(f: &Fields, name: &str) -> f64 {
    match f.get(name) {
        Some(Value::Float(b)) => f64::from_bits(*b),
        Some(Value::Int(n)) => *n as f64,
        _ => f64::NAN,
    }
}

#[test]
fn labels_name_the_metric() {
    assert_eq!(canonical_label(&AggregateFunc::Count), "count");
    assert_eq!(canonical_label(&AggregateFunc::Avg("m".to_string())), "avg(m)");
    let named = Aggregate {
        func: AggregateFunc::Count,
        alias: Some("n".to_string()),
        filter: None,
    };
    assert_eq!(resolve_label(&named), "n");
    assert_eq!(
        resolve_labels(&vec![agg(AggregateFunc::Count), agg(AggregateFunc::Count)]),
        Err("duplicate aggregate label 'count'; add AS <alias> to disambiguate".to_string())
    );
    let filtered = Aggregate {
        func: AggregateFunc::Count,
        alias: None,
        filter: Some(FilterExpr::And(vec![])),
    };
    assert!(resolve_labels(&vec![filtered]).is_err());
    assert_eq!(resolve_labels(&all()).unwrap().len(), 5);
}

#[test]
fn metrics_are_computed_over_all_records() {
    let records = vec![record("a", 10), record("b", 20), record("a", 60)];
    let f = ops().execute_aggregate(&records, &all()).unwrap();
    assert_eq!(double(&f, "count"), 3.0);
    assert_eq!(double(&f, "sum(m)"), 90.0);
    assert_eq!(double(&f, "avg(m)"), 30.0);
    assert_eq!(double(&f, "min(m)"), 10.0);
    assert_eq!(double(&f, "max(m)"), 60.0);
}

#[test]
fn a_stream_gives_what_the_whole_gives() {
    let records = vec![record("a", 10), record("b", 20), record("a", 60)];
    let whole = ops().execute_aggregate(&records, &all()).unwrap();
    let mut acc = AggAccumulator::new(&ops(), &all());
    for r in &records {
        acc.observe(&ops(), r);
    }
    let streamed = acc.finalize(&ops());
    for name in ["count", "sum(m)", "avg(m)", "min(m)", "max(m)"] {
        assert_eq!(double(&whole, name), double(&streamed, name));
    }
}

#[test]
fn a_filtered_metric_counts_what_passes() {
    let only_a = Aggregate {
        func: AggregateFunc::Count,
        alias: Some("a_count".to_string()),
        filter: Some(FilterExpr::Condition(Filter {
            field: "g".to_string(),
            op: AstOp::Eq,
            value: Literal::Text("a".to_string()),
        })),
    };
    let records = vec![record("a", 1), record("b", 2), record("a", 3)];
    let f = ops()
        .execute_aggregate(&records, &vec![agg(AggregateFunc::Count), only_a])
        .unwrap();
    assert_eq!(double(&f, "count"), 3.0);
    assert_eq!(double(&f, "a_count"), 2.0);
}

#[test]
fn groups_are_told_apart() {
    let mut acc = GroupAccumulator::new(&ops(), vec!["g".to_string()], all());
    for r in [record("a", 10), record("b", 20), record("a", 60)] {
        acc.observe(&ops(), &r);
    }
    let rows = acc.finish(&ops());
    assert_eq!(rows.len(), 2);
    let a = rows
        .iter()
        .find(|r| matches!(r.get("g"), Some(Value::Text(s)) if s == "a"))
        .unwrap();
    assert_eq!(double(a, "count"), 2.0);
    assert_eq!(double(a, "sum(m)"), 70.0);
}

// ---------------------------------------------------------------------------
// Ranking of groups
// ---------------------------------------------------------------------------
fn fragment(v: &Value) -> String {
    match v {
        Value::Text(s) => s.clone(),
        _ => "?".to_string(),
    }
}

fn join_key(parts: &Vec<String>) -> String {
    parts.join("|")
}

fn split_key(k: &str) -> Vec<String> {
    k.split('|').map(|s| s.to_string()).collect()
}

fn fragment_value(s: &str) -> Value {
    Value::Text(s.to_string())
}

fn results(s: &AggregateState) -> Vec<(String, Value)> {
    vec![("count".to_string(), Value::Int(s.count))]
}

fn encode(s: &AggregateState) -> Vec<u8> {
    s.count.to_be_bytes().to_vec()
}

fn decode(b: &[u8]) -> Option<AggregateState> {
    let a: [u8; 8] = b.try_into().ok()?;
    Some(AggregateState { count: i64::from_be_bytes(a), dirty: false, body: vec![] })
}

type Rows = RowOps<
    fn(&Value) -> String,
    fn(&Vec<String>) -> String,
    fn(&str) -> Vec<String>,
    fn(&str) -> Value,
    fn(&AggregateState) -> Vec<(String, Value)>,
    fn(&Value) -> String,
    fn(&AggregateState) -> Vec<u8>,
    fn(&[u8]) -> Option<AggregateState>,
>;

fn rows() -> Rows {
    RowOps {
        fragment,
        join_key,
        split_key,
        fragment_value,
        results,
        show: fragment,
        encode,
        decode,
    }
}

fn row(g: &str, n: i64) -> Fields {
    let mut f = Fields::new();
    f.insert("g".to_string(), Value::Text(g.to_string()));
    f.insert("count".to_string(), Value::Int(n));
    f
}

fn top(n: usize, by: Option<TopBy>) -> TopStmt {
    TopStmt { n, by, descending: true }
}

#[test]
fn the_top_groups_are_those_with_the_highest_metric() {
    let by = || Some(TopBy::Metric(AggregateFunc::Count));
    let g = vec!["g".to_string()];
    let best = rows()
        .apply_top(vec![row("a", 1), row("c", 5), row("b", 5)], &top(2, by()), &g)
        .unwrap();
    let names: Vec<String> = best.iter().map(|r| fragment(r.get("g").unwrap())).collect();
    assert_eq!(names, vec!["b".to_string(), "c".to_string()]);
    assert_eq!(top_metric(&best[0], "count"), 5.0f64.to_bits());
    let err = rows()
        .apply_top(vec![row("a", 1)], &top(2, Some(TopBy::Alias("x".to_string()))), &g)
        .unwrap_err();
    assert_eq!(
        err,
        XyzError::InvalidQuery("TOP BY 'x': not a metric in the AGGREGATE clause".to_string())
    );
    assert_eq!(rows().apply_top(vec![row("a", 1), row("b", 2)], &top(1, None), &g).unwrap().len(), 1);
}

#[test]
fn ordered_entries_give_the_rows_in_order() {
    let state = |n| AggregateState { count: n, dirty: false, body: vec![] };
    let groups = vec![("a".to_string(), state(1)), ("b".to_string(), state(5))];
    let order = xyzdb_engine::ghost_meta::MetricOrder { label: "count".to_string(), descending: true };
    let g = vec!["g".to_string()];
    let (mut entries, complete) = rows().emit_metric_order(9, &g, &order, &groups);
    assert!(complete);
    entries.sort();
    let vals: Vec<Vec<u8>> = entries.into_iter().map(|e| e.1).collect();
    let read = rows().read_topn(&g, &vals, 1);
    assert_eq!(read.len(), 1);
    assert_eq!(fragment(read[0].get("g").unwrap()), "b");
}

#[test]
fn records_that_do_not_pass_are_not_aggregated() {
    let is = |v: &str| {
        FilterExpr::Condition(Filter {
            field: "g".to_string(),
            op: AstOp::Eq,
            value: Literal::Text(v.to_string()),
        })
    };
    let either = Some(FilterExpr::Or(vec![is("a"), is("b")]));
    let mut acc = AggAccumulator::new(&ops(), &all());
    let mut groups = GroupAccumulator::new(&ops(), vec!["g".to_string()], all());
    let mut passed = Vec::new();
    for r in [record("a", 10), record("c", 20), record("b", 60)] {
        passed.push(acc.observe_if(&ops(), &either, &r));
        assert_eq!(groups.observe_if(&ops(), &either, &r), *passed.last().unwrap());
    }
    assert_eq!(passed, vec![true, false, true]);
    let f = acc.finalize(&ops());
    assert_eq!(double(&f, "count"), 2.0);
    assert_eq!(double(&f, "sum(m)"), 70.0);
    assert_eq!(groups.finish(&ops()).len(), 2);
}
