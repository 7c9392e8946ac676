use xyzdb_engine::error::XyzError;
use xyzdb_engine::fetch::{execute_fetch, section_names};
use xyzdb_engine::find::{
    anchor_condition, check_lid_entry, check_resume, execute_find, find_way, fit_key, FindFacts,
    FindPlan, FindTarget, FindWay, FoundRecords, LiteralText,
};
use xyzdb_engine::ast::{Filter, FilterExpr, FilterOp as AstOp, Literal};
use xyzdb_engine::follow::{collect_references, Followed};
use xyzdb_engine::nearest::BudgetStop;
use xyzdb_engine::planner::{
    execute_pipeline, extract_records, search_answer, shape_records, take_records, PipelinePlan,
    QueryResult, Runner, StepAction, StepKind,
};
use xyzdb_engine::record::{Fields, FilterOp, Record};
use xyzdb_engine::value::{values_equal, Value};

fn rec(lid: u128, pairs: Vec<(&str, Value)>) -> Record {
    let mut fields = Fields::new();
    for (k, v) in pairs {
        fields.insert(k.to_string(), v);
    }
    Record { lid, lobe_name: "l".to_string(), fields, created_at: 0, updated_at: 0 }
}

fn text(s: &str) -> Value {
    Value::Text(s.to_string())
}

// ---------------------------------------------------------------------------
// Pipelines
// ---------------------------------------------------------------------------
#[test]
fn known_pipelines_are_run_as_one() {
    let plan = |steps: Vec<StepKind>| execute_pipeline(&steps);
    assert_eq!(plan(vec![StepKind::Scan, StepKind::Aggregate]), PipelinePlan::ScanAggregate);
    assert_eq!(
        plan(vec![StepKind::Scan, StepKind::Nearest, StepKind::Shape]),
        PipelinePlan::ScanNearest
    );
    assert_eq!(
        plan(vec![StepKind::Scan, StepKind::GroupBy, StepKind::Aggregate]),
        PipelinePlan::ScanGroupAggregate
    );
    assert_eq!(
        plan(vec![
            StepKind::Scan,
            StepKind::GroupBy,
            StepKind::Aggregate,
            StepKind::Top { by_metric: true }
        ]),
        PipelinePlan::ScanGroupAggregateTop
    );
    assert_eq!(plan(vec![StepKind::Find, StepKind::Pull]), PipelinePlan::Steps);
    assert_eq!(
        plan(vec![StepKind::Scan, StepKind::Aggregate, StepKind::Shape]),
        PipelinePlan::Steps
    );
}

#[test]
fn a_step_works_on_what_came_before() {
    let mut run = Runner::new(None, None);
    assert!(matches!(run.begin_step(StepKind::Scan), Ok(StepAction::Source)));
    run.give(vec![rec(1, vec![]), rec(2, vec![])]);
    match run.begin_step(StepKind::Shape).unwrap() {
        StepAction::On(r) => run.give(r),
        _ => panic!("shape works on records"),
    }
    match run.begin_step(StepKind::Delete).unwrap() {
        StepAction::Last(r) => assert_eq!(r.len(), 2),
        _ => panic!("delete ends the pipeline"),
    }
}

#[test]
fn a_step_without_records_is_refused() {
    let mut run = Runner::new(None, None);
    assert!(matches!(
        run.begin_step(StepKind::Pull),
        Err(XyzError::InvalidQuery(m)) if m == "PULL in pipeline requires preceding records"
    ));
    assert!(run.begin_step(StepKind::GroupBy).is_err());
    assert!(run.begin_step(StepKind::Top { by_metric: true }).is_err());
}

#[test]
fn a_partial_search_is_not_changed_or_aggregated() {
    let stop = BudgetStop { examined: 1, candidates: 5, found: 1 };
    let mut run = Runner::new(Some(vec![rec(1, vec![])]), Some(stop));
    assert!(run.begin_step(StepKind::Assign).is_err());
    match search_answer(vec![rec(1, vec![])], Some(stop)) {
        QueryResult::PaginatedRecords { budget_stop, .. } => assert_eq!(budget_stop, Some(stop)),
        _ => panic!("a partial answer says so"),
    }
    assert!(matches!(search_answer(vec![], None), QueryResult::Records(_)));
}

#[test]
fn records_are_shaped_and_cut() {
    let rs = vec![rec(1, vec![("a", text("x")), ("b", text("y"))]), rec(2, vec![])];
    let shaped = shape_records(rs, &vec!["a".to_string()]);
    assert!(shaped[0].fields.contains_key("a"));
    assert!(!shaped[0].fields.contains_key("b"));
    assert_eq!(take_records(shaped, 1).len(), 1);
    assert!(matches!(
        extract_records(QueryResult::Info("i".to_string())),
        Err(XyzError::InvalidQuery(m)) if m == "Expected records in pipeline, got info"
    ));
    assert_eq!(extract_records(QueryResult::Records(vec![])).unwrap().len(), 0);
}

// ---------------------------------------------------------------------------
// Find
// ---------------------------------------------------------------------------
fn facts() -> FindFacts {
    FindFacts { has_cursor: false, limit: None, lobe_known: true, anchor_eq: false, hash: Some(9) }
}

#[test]
fn a_find_is_resumed_only_in_a_bucket() {
    let lobe = FindTarget::Lobe("l".to_string());
    assert_eq!(execute_find(&lobe, facts()), Ok(FindPlan::Whole));
    let limited = FindFacts { limit: Some(3), ..facts() };
    assert_eq!(execute_find(&lobe, limited), Ok(FindPlan::FirstPage { hash: 9, limit: 3 }));
    let resumed = FindFacts { has_cursor: true, ..facts() };
    assert_eq!(execute_find(&lobe, resumed), Ok(FindPlan::Resume { hash: 9, limit: 1000 }));
    let unknown = FindFacts { lobe_known: false, ..resumed };
    assert_eq!(
        execute_find(&lobe, unknown),
        Err(XyzError::LobeNotFound("l".to_string()))
    );
    let pinned = FindFacts { anchor_eq: true, ..resumed };
    assert!(execute_find(&lobe, pinned).is_err());
    let nowhere = FindFacts { hash: None, ..resumed };
    assert!(execute_find(&lobe, nowhere).is_err());
    assert_eq!(
        execute_find(&FindTarget::ByLid("x".to_string()), resumed),
        Err(XyzError::InvalidQuery(
            "cursor not applicable to FIND LID(...); single-record lookup".to_string()
        ))
    );
}

#[test]
fn a_resume_point_lies_in_its_bucket() {
    let (min, max) = (vec![1u8; 22], vec![3u8; 22]);
    assert_eq!(check_resume(&[2u8; 22], &min, &max), Ok(()));
    assert_eq!(check_resume(&[1u8; 22], &min, &max), Ok(()));
    assert!(check_resume(&[4u8; 22], &min, &max).is_err());
    assert!(check_resume(&[0u8; 22], &min, &max).is_err());
    assert!(check_resume(&[2u8; 21], &min, &max).is_err());
}

#[test]
fn the_first_pinned_anchor_is_looked_up() {
    let f = |name: &str, op| Filter { field: name.to_string(), op, value: Literal::Int(1) };
    let filters = vec![f("a", AstOp::Gt), f("b", AstOp::Eq), f("a", AstOp::Eq)];
    assert_eq!(anchor_condition(&filters, &["a".to_string()]), Some(2));
    assert_eq!(anchor_condition(&filters, &["c".to_string()]), None);
    let lt = LiteralText { render: |_: &Literal| "other".to_string() };
    assert_eq!(lt.literal_to_string(&Literal::Int(-5)), "-5");
    assert_eq!(lt.literal_to_string(&Literal::Bool(true)), "true");
    assert_eq!(lt.literal_to_string(&Literal::Null), "null");
    assert_eq!(lt.literal_to_string(&Literal::Text("t".to_string())), "t");
    assert_eq!(lt.literal_to_string(&Literal::List(vec![])), "other");
    assert_eq!(check_lid_entry(&[0u8; 16]), Ok(()));
    assert_eq!(
        check_lid_entry(&[0u8; 15]),
        Err(XyzError::Internal("bad LID in dictionary".to_string()))
    );
}

#[test]
fn found_keys_are_whole_or_fitted() {
    assert_eq!(fit_key(&[7u8; 3])[..4], [7, 7, 7, 0]);
    assert_eq!(fit_key(&[7u8; 30]).len(), 22);
    let mut bucket = FoundRecords::new(FindWay::Bucket(9));
    bucket.offer_if(&[], &None, &[1u8; 22], rec(1, vec![]), &equals);
    bucket.offer_if(&[], &None, &[1u8; 3], rec(2, vec![]), &equals);
    assert_eq!(bucket.finish().len(), 1);
    let mut lobe = FoundRecords::new(FindWay::WholeLobe);
    lobe.offer_if(&[], &None, &[1u8; 3], rec(2, vec![]), &equals);
    assert_eq!(lobe.finish()[0].1.len(), 22);
}

/// The record has the value, and the predicate is an equality.
fn equals(r: &Record, p: &(String, FilterOp, Value)) -> bool {
    p.1 == FilterOp::Eq && r.fields.get(&p.0).is_some_and(|v| values_equal(v, &p.2))
}

#[test]
fn a_record_that_only_shares_the_bucket_is_not_found() {
    let city = [("city".to_string(), FilterOp::Eq, text("x"))];
    let whole = Some(FilterExpr::Condition(Filter {
        field: "age".to_string(),
        op: AstOp::Eq,
        value: Literal::Int(3),
    }));
    let mut bucket = FoundRecords::new(FindWay::Bucket(9));
    bucket.offer_if(&city, &None, &[1u8; 22], rec(1, vec![("city", text("x"))]), &equals);
    bucket.offer_if(&city, &None, &[2u8; 22], rec(2, vec![("city", text("y"))]), &equals);
    let lids: Vec<u128> = bucket.finish().iter().map(|(r, _)| r.lid).collect();
    assert_eq!(lids, vec![1]);
    let mut both = FoundRecords::new(FindWay::Anchor(0));
    let of_age = |lid, n| rec(lid, vec![("city", text("x")), ("age", Value::Int(n))]);
    both.offer_if(&city, &whole, &[1u8; 22], of_age(3, 3), &equals);
    both.offer_if(&city, &whole, &[1u8; 22], of_age(4, 4), &equals);
    let lids: Vec<u128> = both.finish().iter().map(|(r, _)| r.lid).collect();
    assert_eq!(lids, vec![3]);
    // The conditions do not apply to a record that is asked for by its identity.
    let mut one = FoundRecords::new(FindWay::Identity);
    one.offer_if(&city, &None, &[1u8; 22], rec(5, vec![]), &equals);
    assert_eq!(one.finish().len(), 1);
}

#[test]
fn an_anchor_goes_before_a_bucket_and_a_bucket_before_the_lobe() {
    let lobe = FindTarget::Lobe("l".to_string());
    let by_lid = FindTarget::ByLid("L1".to_string());
    let pin = |name: &str, op: AstOp| Filter {
        field: name.to_string(),
        op,
        value: Literal::Int(1),
    };
    let filters = [pin("a", AstOp::Gt), pin("g", AstOp::Eq), pin("a", AstOp::Eq)];
    let anchors = vec!["a".to_string()];
    let none: Vec<String> = vec![];
    assert_eq!(find_way(&lobe, &filters, Some(&anchors), Some(9)), Ok(FindWay::Anchor(2)));
    assert_eq!(find_way(&lobe, &filters, Some(&none), Some(9)), Ok(FindWay::Bucket(9)));
    assert_eq!(find_way(&lobe, &filters, Some(&none), None), Ok(FindWay::WholeLobe));
    assert_eq!(find_way(&by_lid, &filters, None, None), Ok(FindWay::Identity));
    assert_eq!(
        find_way(&lobe, &filters, None, Some(9)),
        Err(XyzError::LobeNotFound("l".to_string()))
    );
}

// ---------------------------------------------------------------------------
// Follow and fetch
// ---------------------------------------------------------------------------
#[test]
fn references_are_followed_once() {
    let rs = vec![
        rec(1, vec![("r", text("x"))]),
        rec(2, vec![("r", text("y"))]),
        rec(3, vec![("r", text("x"))]),
        rec(4, vec![]),
    ];
    assert_eq!(collect_references(&rs, "r"), vec!["x".to_string(), "y".to_string()]);
    let mut f = Followed::new();
    f.give(rec(5, vec![]));
    f.give(rec(6, vec![]));
    f.give(rec(5, vec![]));
    let lids: Vec<u128> = f.finish().iter().map(|r| r.lid).collect();
    assert_eq!(lids, vec![5, 6]);
}

#[test]
fn a_fetch_has_a_section_for_each_lobe() {
    let lobes = vec!["a".to_string(), "b".to_string()];
    assert!(section_names(false, &lobes, None).is_err());
    assert_eq!(section_names(true, &lobes, None), Ok(lobes.clone()));
    let one = vec!["x".to_string()];
    let err = section_names(true, &lobes, Some(&one)).unwrap_err();
    assert_eq!(
        err,
        XyzError::InvalidQuery(
            "FETCH AS lists 1 name(s) for 2 lobe(s) — one section name per lobe".to_string()
        )
    );
    let r = execute_fetch(&lobes, &vec![vec![rec(1, vec![("k", text("v"))])], vec![]]);
    assert_eq!(r.lobe_name, "fetch");
    assert!(matches!(r.fields.get("a"), Some(Value::List(items)) if items.len() == 1));
    assert!(matches!(r.fields.get("b"), Some(Value::List(items)) if items.is_empty()));
}
