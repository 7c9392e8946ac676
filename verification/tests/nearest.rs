use xyzdb_engine::ast::{Filter, FilterExpr, FilterOp as AstOp, Literal};
use xyzdb_engine::error::XyzError;
use xyzdb_engine::nearest::{
    is_out_of_time, AfterColumns, ColumnCandidate, DistanceOps, FusedPlan, FusedScan, NearestQuery,
    NearestStmt, ScanFacts, SimilarityMetric, VectorEntry,
};
use xyzdb_engine::record::{Fields, FilterOp, Record};
use xyzdb_engine::top_k::TopK;
use xyzdb_engine::value::{values_equal, Value};

fn metric(name: &str) -> Option<SimilarityMetric> {
    match name {
        "cosine" => Some(SimilarityMetric::Cosine),
        "dot" => Some(SimilarityMetric::Dot),
        "l2" => Some(SimilarityMetric::L2),
        _ => None,
    }
}

fn vector(v: &Value) -> Option<Vec<u32>> {
    match v {
        Value::Vector(p) => Some(p.clone()),
        Value::List(items) => items
            .iter()
            .map(|i| match i {
                Value::Float(b) => Some((f64::from_bits(*b) as f32).to_bits()),
                Value::Int(n) => Some((*n as f32).to_bits()),
                _ => None,
            })
            .collect(),
        _ => None,
    }
}

/// The dot product, whatever the metric.
fn similarity(_: SimilarityMetric, x: &[u32], y: &[u32]) -> Option<u64> {
    if x.len() != y.len() {
        return None;
    }
    let s: f64 = x
        .iter()
        .zip(y)
        .map(|(a, b)| f32::from_bits(*a) as f64 * f32::from_bits(*b) as f64)
        .sum();
    Some(s.to_bits())
}

type Ops = DistanceOps<
    fn(&str) -> Option<SimilarityMetric>,
    fn(&Value) -> Option<Vec<u32>>,
    fn(SimilarityMetric, &[u32], &[u32]) -> Option<u64>,
>;

fn ops() -> Ops {
    DistanceOps { metric, vector, similarity }
}

fn rec(lid: u128, id: &str, v: Vec<f32>) -> Record {
    let mut fields = Fields::new();
    fields.insert("id".to_string(), Value::Text(id.to_string()));
    fields.insert(
        "emb".to_string(),
        Value::Vector(v.iter().map(|x| x.to_bits()).collect()),
    );
    Record { lid, lobe_name: "l".to_string(), fields, created_at: 0, updated_at: 0 }
}

fn stmt(query: NearestQuery, k: usize) -> NearestStmt {
    NearestStmt { field: "emb".to_string(), query, k, metric: "dot".to_string() }
}

fn along_x() -> NearestQuery {
    NearestQuery::Vector(Literal::List(vec![Literal::Int(1), Literal::Int(0)]))
}

fn corpus() -> Vec<Record> {
    vec![
        rec(1, "a", vec![0.1, 0.9]),
        rec(2, "b", vec![0.9, 0.1]),
        rec(3, "c", vec![0.5, 0.5]),
        rec(4, "d", vec![1.0]),
    ]
}

#[test]
fn the_nearest_records_come_first() {
    let found = ops().execute_nearest(corpus(), &stmt(along_x(), 2)).unwrap();
    let lids: Vec<u128> = found.iter().map(|r| r.lid).collect();
    assert_eq!(lids, vec![2, 3]);
    assert_eq!(ops().execute_nearest(corpus(), &stmt(along_x(), 9)).unwrap().len(), 3);
}

#[test]
fn a_record_can_be_the_query() {
    let q = NearestQuery::Ref("a".to_string());
    let found = ops().execute_nearest(corpus(), &stmt(q, 1)).unwrap();
    assert_eq!(found.len(), 1);
    let missing = NearestQuery::Ref("zz".to_string());
    assert!(ops().execute_nearest(corpus(), &stmt(missing, 1)).is_err());
    let mut twice = corpus();
    twice.push(rec(9, "a", vec![0.0, 1.0]));
    let err = ops()
        .execute_nearest(twice, &stmt(NearestQuery::Ref("a".to_string()), 1))
        .unwrap_err();
    assert_eq!(
        err,
        XyzError::InvalidQuery(
            "NEAREST: REF \"a\" is ambiguous — matches more than one scanned record".to_string()
        )
    );
}

#[test]
fn unknown_metrics_and_queries_are_refused() {
    let mut s = stmt(along_x(), 1);
    s.metric = "hamming".to_string();
    assert_eq!(
        ops().execute_nearest(corpus(), &s).unwrap_err(),
        XyzError::InvalidQuery(
            "NEAREST: unknown metric 'hamming'. Expected cosine, dot, or l2".to_string()
        )
    );
    let text = NearestQuery::Vector(Literal::Text("x".to_string()));
    assert_eq!(
        ops().execute_nearest(corpus(), &stmt(text, 1)).unwrap_err(),
        XyzError::InvalidQuery("NEAREST: query must be a list of numbers".to_string())
    );
    assert!(ops()
        .execute_nearest(corpus(), &stmt(NearestQuery::Param("p".to_string()), 1))
        .is_err());
}

#[test]
fn ties_go_to_the_lower_identity_and_nan_counts_least() {
    let mut top: TopK<&str> = TopK::new(2);
    top.offer(1.0f64.to_bits(), 7, "b");
    top.offer(f64::NAN.to_bits(), 1, "nan");
    top.offer(1.0f64.to_bits(), 3, "a");
    assert_eq!(top.len(), 2);
    let best: Vec<&str> = top.into_best().into_iter().map(|r| r.item).collect();
    assert_eq!(best, vec!["a", "b"]);
}

fn plan_facts<'a>(
    filters: &'a [(String, FilterOp, Value)],
    gravity: &'a [String],
) -> ScanFacts<'a> {
    ScanFacts {
        vector_field: Some("emb"),
        ordered: false,
        limited: false,
        filtered: true,
        filters,
        gravity_fields: Some(gravity),
    }
}

#[test]
fn a_search_is_fused_with_its_scan() {
    let filters = vec![("conv".to_string(), FilterOp::Eq, Value::Text("c1".to_string()))];
    let gravity = vec!["conv".to_string()];
    let plan = ops().plan_fused(&plan_facts(&filters, &gravity), &stmt(along_x(), 2)).unwrap();
    assert_eq!(plan.k, 2);
    assert!(!plan.has_residual);
    let mut other = plan_facts(&filters, &gravity);
    other.vector_field = Some("elsewhere");
    assert!(ops().plan_fused(&other, &stmt(along_x(), 2)).is_none());
    // What a limit keeps is decided before the search.
    let mut limited = plan_facts(&filters, &gravity);
    limited.limited = true;
    assert!(ops().plan_fused(&limited, &stmt(along_x(), 2)).is_none());

    let mut scan = FusedScan::new(&plan, 0);
    for (i, score) in [0.1f64, 0.9, 0.5].iter().enumerate() {
        scan.look(0).unwrap();
        scan.offer(score.to_bits(), i as u128, vec![i as u8; 22], None);
    }
    let mut hydration = scan.hydrate(plan.k);
    let mut read = Vec::new();
    while let Some(i) = hydration.advance(0) {
        let key = hydration.candidate(i).key.clone();
        read.push(key[0]);
        assert!(hydration.settle(i, rec(key[0] as u128, "r", vec![]), true));
    }
    assert_eq!(read, vec![1, 2]);
    let (found, stop) = hydration.finish();
    assert_eq!(found.iter().map(|r| r.lid).collect::<Vec<u128>>(), vec![1, 2]);
    assert_eq!(stop, None);
}

#[test]
fn the_clock_is_read_now_and_then() {
    assert!(!is_out_of_time(1, 10, 1000));
    assert!(is_out_of_time(1024, 10, 1000));
    assert!(!is_out_of_time(1024, 0, 1000));
    assert!(!is_out_of_time(1024, 10, 5));
}

fn plan(has_residual: bool) -> FusedPlan {
    let filters = vec![
        ("conv".to_string(), FilterOp::Eq, Value::Text("c1".to_string())),
        ("kind".to_string(), FilterOp::Eq, Value::Text("note".to_string())),
    ];
    let gravity = vec!["conv".to_string()];
    let shown = if has_residual { &filters[..] } else { &filters[..1] };
    ops().plan_fused(&plan_facts(shown, &gravity), &stmt(along_x(), 2)).unwrap()
}

fn entry(lid: u128, is_searched: bool, v: Vec<f32>) -> Option<VectorEntry> {
    Some(VectorEntry { lid, is_searched, vector: v.iter().map(|x| x.to_bits()).collect() })
}

#[test]
fn columns_rank_as_records() {
    let plan = plan(false);
    let mut scan = FusedScan::new(&plan, 0);
    for r in corpus() {
        let v = ops().field_embedding(&r.fields, "emb").unwrap();
        let e = VectorEntry { lid: r.lid, is_searched: true, vector: v };
        ops().offer_column(&plan, &mut scan, Some(e), vec![r.lid as u8; 22], vec![7]);
    }
    assert_eq!(scan.after_columns(), AfterColumns::Hydrate);
    let mut reading = scan.hydrate(plan.k);
    let mut order = Vec::new();
    while let Some(i) = reading.advance(0) {
        assert_eq!(reading.candidate(i).column, Some(vec![7]));
        order.push(reading.candidate(i).key[0] as u128);
    }
    let found = ops().execute_nearest(corpus(), &stmt(along_x(), 2)).unwrap();
    assert_eq!(order, found.iter().map(|r| r.lid).collect::<Vec<u128>>());
}

#[test]
fn only_the_searched_field_competes() {
    let plan = plan(false);
    let mut scan = FusedScan::new(&plan, 0);
    ops().offer_column(&plan, &mut scan, None, vec![1; 22], vec![]);
    assert_eq!(scan.after_columns(), AfterColumns::ScoreRecords);
    ops().offer_column(&plan, &mut scan, entry(2, false, vec![1.0, 0.0]), vec![2; 22], vec![]);
    ops().offer_column(&plan, &mut scan, entry(3, true, vec![1.0]), vec![3; 22], vec![]);
    assert_eq!(scan.after_columns(), AfterColumns::Hydrate);
    assert!(scan.hydrate(plan.k).advance(0).is_none());
}

#[test]
fn records_without_columns_are_scored_themselves() {
    let plan = plan(false);
    let mut scan = FusedScan::new(&plan, 0);
    let taken = ops().offer_head(&plan, &mut scan, entry(5, true, vec![0.4, 0.0]), vec![5; 22]);
    assert_eq!(taken, None);
    let back = ops().offer_head(&plan, &mut scan, entry(6, false, vec![9.0, 0.0]), vec![6; 22]);
    assert_eq!(back, Some(vec![6; 22]));
    let r = rec(6, "f", vec![0.6, 0.0]);
    assert!(ops().offer_record(&plan, &mut scan, "emb", &r, true, vec![6; 22]));
    assert!(!ops().offer_record(&plan, &mut scan, "emb", &r, false, vec![6; 22]));
    let mut reading = scan.hydrate(plan.k);
    let mut order = Vec::new();
    while let Some(i) = reading.advance(0) {
        order.push(reading.candidate(i).key[0]);
    }
    assert_eq!(order, vec![6, 5]);
}

#[test]
fn checked_candidates_are_read_until_enough_pass() {
    let plan = plan(true);
    assert!(plan.has_residual);
    let mut scan = FusedScan::new(&plan, 0);
    assert_eq!(scan.after_columns(), AfterColumns::ReadWhole);
    for (lid, x) in [(1u128, 0.9f32), (2, 0.8), (3, 0.7), (4, 0.6)] {
        let e = entry(lid, true, vec![x, 0.0]);
        ops().offer_column(&plan, &mut scan, e, vec![lid as u8; 22], vec![7]);
    }
    let mut reading = scan.hydrate(plan.k);
    let mut read = 0;
    while let Some(i) = reading.advance(0) {
        assert_eq!(reading.candidate(i).column, None);
        let lid = reading.candidate(i).key[0] as u128;
        assert!(reading.settle(i, rec(lid, "r", vec![]), lid != 1));
        read += 1;
    }
    assert_eq!(read, 3);
    let (found, stop) = reading.finish();
    assert_eq!(found.iter().map(|r| r.lid).collect::<Vec<u128>>(), vec![2, 3]);
    assert_eq!(stop, None);
}

#[test]
fn a_search_that_runs_out_of_time_gives_the_best_so_far() {
    let plan = plan(true);
    let mut scan = FusedScan::new(&plan, 5);
    for lid in 1..=1022u128 {
        scan.look(0).unwrap();
        let e = entry(lid, true, vec![lid as f32, 0.0]);
        let key = lid.to_be_bytes().to_vec();
        ops().offer_column(&plan, &mut scan, e, key, vec![]);
    }
    let mut reading = scan.hydrate(plan.k);
    let i = reading.advance(9).unwrap();
    assert!(reading.settle(i, rec(1022, "r", vec![]), true));
    assert!(reading.advance(9).is_none());
    let (found, stop) = reading.finish();
    assert_eq!(found.iter().map(|r| r.lid).collect::<Vec<u128>>(), vec![1022]);
    let stop = stop.unwrap();
    assert_eq!((stop.examined, stop.candidates, stop.found), (1, 1022, 1));
}

#[test]
fn a_record_that_only_shares_the_bucket_ends_the_fused_search() {
    let plan = plan(false);
    let mut scan = FusedScan::new(&plan, 0);
    for (lid, x) in [(1u128, 0.9f32), (2, 0.8), (3, 0.7)] {
        let e = entry(lid, true, vec![x, 0.0]);
        ops().offer_column(&plan, &mut scan, e, vec![lid as u8; 22], vec![7]);
    }
    let mut reading = scan.hydrate(plan.k);
    let i = reading.advance(0).unwrap();
    assert!(reading.settle(i, rec(1, "r", vec![]), true));
    let i = reading.advance(0).unwrap();
    assert!(!reading.settle(i, rec(2, "r", vec![]), false));
}

/// The record has the value of the predicate.
fn has_value(r: &Record, p: &(String, FilterOp, Value)) -> bool {
    r.fields.get(&p.0).is_some_and(|v| values_equal(v, &p.2))
}

fn of_kind(kind: &str) -> Option<FilterExpr> {
    Some(FilterExpr::Condition(Filter {
        field: "id".to_string(),
        op: AstOp::Eq,
        value: Literal::Text(kind.to_string()),
    }))
}

/// Notes and others, ever less similar to the query.
fn mixed() -> Vec<Record> {
    [(1u128, "other", 0.9f32), (2, "note", 0.8), (3, "other", 0.7), (4, "note", 0.6), (5, "note", 0.5)]
        .iter()
        .map(|(lid, id, x)| rec(*lid, id, vec![*x, 0.0]))
        .collect()
}

fn scored(plan: &FusedPlan, budget_ms: u64, records: &[Record]) -> FusedScan {
    let mut scan = FusedScan::new(plan, budget_ms);
    for r in records {
        let v = ops().field_embedding(&r.fields, "emb").unwrap();
        let e = VectorEntry { lid: r.lid, is_searched: true, vector: v };
        ops().offer_column(plan, &mut scan, Some(e), vec![r.lid as u8; 22], vec![]);
    }
    scan
}

fn lids(records: &[Record]) -> Vec<u128> {
    records.iter().map(|r| r.lid).collect()
}

#[test]
fn a_fused_run_finds_what_a_search_among_the_selected_finds() {
    let all = mixed();
    let read = |c: &ColumnCandidate| Ok(all[c.key[0] as usize - 1].clone_record());
    let plan = plan(true);
    let notes = of_kind("note");
    let run = scored(&plan, 0, &all).hydrate(plan.k).run(&read, &|| 0, &notes, &has_value);
    let (found, stop) = run.unwrap().unwrap();
    let selected: Vec<Record> = mixed().into_iter().filter(|r| r.lid % 2 == 0 || r.lid == 5).collect();
    let whole = ops().execute_nearest(selected, &stmt(along_x(), 2)).unwrap();
    assert_eq!(lids(&found), lids(&whole));
    assert_eq!(lids(&found), vec![2, 4]);
    assert_eq!(stop, None);
}

#[test]
fn a_fused_run_ends_with_what_it_comes_upon() {
    let all = mixed();
    let read = |c: &ColumnCandidate| Ok(all[c.key[0] as usize - 1].clone_record());
    let unchecked = plan(false);
    // The best two are not both notes, so the columns do not answer.
    let run = scored(&unchecked, 0, &all).hydrate(2).run(&read, &|| 0, &of_kind("note"), &has_value);
    assert!(run.unwrap().is_none());
    let (found, _) = scored(&unchecked, 0, &all)
        .hydrate(2)
        .run(&read, &|| 0, &None, &has_value)
        .unwrap()
        .unwrap();
    assert_eq!(lids(&found), vec![1, 2]);
    let broken = |_: &ColumnCandidate| Err(XyzError::Storage("gone".to_string()));
    let run = scored(&unchecked, 0, &all).hydrate(2).run(&broken, &|| 0, &None, &has_value);
    assert!(matches!(run, Err(XyzError::Storage(m)) if m == "gone"));
}
