use xyzdb_engine::ast::{Filter, FilterExpr, FilterOp as AstOp, Literal};
use xyzdb_engine::filter::{
    and_of, as_flat_and, filter_expr_to_flat, from_filters, literal_to_value, matches_core_expr,
    matches_filter_expr, parse_timestamp_micros, record_matches_opt_expr, to_core_expr,
    CoreFilterExpr, VECTOR_F32_MIN_DIMS,
};
use xyzdb_engine::record::{Fields, FilterOp};
use xyzdb_engine::value::{values_equal, Value};

fn float_list(n: usize) -> Literal {
    Literal::List(
        (0..n)
            .map(|i| Literal::Float((i as f64 * 0.01).to_bits()))
            .collect(),
    )
}

#[test]
fn long_float_list_packs_to_vector_f32() {
    let v = literal_to_value(&float_list(VECTOR_F32_MIN_DIMS));
    match v {
        Value::Vector(p) => {
            assert_eq!(p.len(), VECTOR_F32_MIN_DIMS);
            assert_eq!(f32::from_bits(p[3]), (3.0f64 * 0.01) as f32);
        }
        _ => panic!("expected Vector"),
    }
}

#[test]
fn short_float_list_stays_list_f64() {
    let v = literal_to_value(&float_list(VECTOR_F32_MIN_DIMS - 1));
    assert!(
        matches!(v, Value::List(_)),
        "short float list must keep f64 List"
    );
}

#[test]
fn int_and_mixed_lists_stay_list() {
    let ints = Literal::List((0..128).map(Literal::Int).collect());
    assert!(
        matches!(literal_to_value(&ints), Value::List(_)),
        "int list must stay List"
    );
    let mut items: Vec<Literal> = (0..128).map(|i| Literal::Float((i as f64).to_bits())).collect();
    items[0] = Literal::Int(0);
    assert!(matches!(
        literal_to_value(&Literal::List(items)),
        Value::List(_)
    ));
}

fn rec(pairs: Vec<(&str, Value)>) -> Fields {
    let mut fields = Fields::new();
    for (k, v) in pairs {
        fields.insert(k.to_string(), v);
    }
    fields
}

/// Equality, and order on integers.
fn satisfies(f: &Fields, p: &(String, FilterOp, Value)) -> bool {
    match (f.get(&p.0), p.1, &p.2) {
        (Some(v), FilterOp::Eq, w) => values_equal(v, w),
        (Some(Value::Int(a)), FilterOp::Gt, Value::Int(b)) => a > b,
        _ => false,
    }
}

fn matches_tree(f: &Fields, e: &CoreFilterExpr) -> bool {
    matches_core_expr(e, &|p: &(String, FilterOp, Value)| satisfies(f, p))
}

fn text(s: &str) -> Value {
    Value::Text(s.to_string())
}

fn status_is(s: &str) -> (String, FilterOp, Value) {
    ("status".to_string(), FilterOp::Eq, text(s))
}

#[test]
fn and_tree_equals_flat_all_at_edges() {
    let r = rec(vec![("status", text("active")), ("age", Value::Int(30))]);
    let empty: Vec<(String, FilterOp, Value)> = vec![];
    assert_eq!(matches_tree(&r, &and_of(vec![])), empty.iter().all(|p| satisfies(&r, p)));
    assert!(matches_tree(&r, &and_of(vec![])));
    for val in ["active", "inactive"] {
        assert_eq!(
            matches_tree(&r, &and_of(vec![status_is(val)])),
            satisfies(&r, &status_is(val)),
            "single-leaf And must equal flat .all() for status={val}"
        );
    }
    for (s, age) in [("active", 40), ("active", 10), ("inactive", 40)] {
        let rr = rec(vec![("status", text(s)), ("age", Value::Int(age))]);
        let over_18 = || ("age".to_string(), FilterOp::Gt, Value::Int(18));
        let flat = satisfies(&rr, &status_is("active")) && satisfies(&rr, &over_18());
        assert_eq!(
            matches_tree(&rr, &and_of(vec![status_is("active"), over_18()])),
            flat,
            "And-tree must equal flat .all() for status={s} age={age}"
        );
    }
}

#[test]
fn core_walker_or_and_not() {
    let r = rec(vec![("status", text("active"))]);
    let leaf = |v: &str| CoreFilterExpr::Leaf(status_is(v));
    assert!(matches_tree(&r, &CoreFilterExpr::Or(vec![leaf("x"), leaf("active")])));
    assert!(!matches_tree(&r, &CoreFilterExpr::Or(vec![leaf("x"), leaf("y")])));
    assert!(matches_tree(&r, &CoreFilterExpr::Not(Box::new(leaf("x")))));
    assert!(!matches_tree(&r, &CoreFilterExpr::Not(Box::new(leaf("active")))));
}

fn condition(field: &str, n: i64) -> Filter {
    Filter { field: field.to_string(), op: AstOp::Eq, value: Literal::Int(n) }
}

#[test]
fn flat_conjunctions_are_told_from_trees() {
    let flat = FilterExpr::And(vec![
        FilterExpr::Condition(condition("a", 1)),
        FilterExpr::And(vec![FilterExpr::Condition(condition("b", 2))]),
    ]);
    let names: Vec<String> = as_flat_and(&flat).unwrap().iter().map(|f| f.field.clone()).collect();
    assert_eq!(names, vec!["a".to_string(), "b".to_string()]);
    let or = FilterExpr::Or(vec![FilterExpr::Condition(condition("a", 1))]);
    assert!(as_flat_and(&or).is_none());
    assert_eq!(filter_expr_to_flat(&Some(or)).len(), 0);
    assert_eq!(filter_expr_to_flat(&None).len(), 0);
    assert_eq!(as_flat_and(&from_filters(&vec![condition("x", 1)])).unwrap().len(), 1);
}

#[test]
fn trees_and_their_statements_agree() {
    let r = rec(vec![("a", Value::Int(1))]);
    let e = FilterExpr::Not(Box::new(FilterExpr::Condition(condition("a", 2))));
    let leaf = |p: &(String, FilterOp, Value)| satisfies(&r, p);
    assert!(matches_filter_expr(&e, &leaf));
    assert_eq!(matches_core_expr(&to_core_expr(&e), &leaf), matches_filter_expr(&e, &leaf));
    assert!(record_matches_opt_expr(&None, &leaf));
    assert!(!record_matches_opt_expr(&Some(FilterExpr::Condition(condition("a", 2))), &leaf));
}

#[test]
fn timestamps_are_read_in_microseconds() {
    assert_eq!(parse_timestamp_micros("1970-01-01T00:00:00Z"), 86_400_000_000);
    assert_eq!(
        parse_timestamp_micros("1971-02-03T04:05:06"),
        (365 + 30 + 3) * 86_400_000_000 + 14_706_000_000
    );
    assert_eq!(parse_timestamp_micros("junk"), 0);
}
