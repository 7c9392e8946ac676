use xyzdb_engine::ast::{Filter, FilterExpr, FilterOp as AstOp, Literal};
use xyzdb_engine::ghost_read::TopRecords;
use xyzdb_engine::record::{Fields, FilterOp, Record};
use xyzdb_engine::scan_collect::{
    make_resume_key, next_page, CappedScan, OrderedScan, PagedScan,
};
use xyzdb_engine::selection::{projection_answers, record_passes};
use xyzdb_engine::value::{values_equal, Value};

type Predicate = (String, FilterOp, Value);

fn test(r: &Record, p: &Predicate) -> bool {
    p.1 == FilterOp::Eq && matches!(r.fields.get(&p.0), Some(v) if values_equal(v, &p.2))
}

fn rec(lid: u128, pairs: &[(&str, i64)]) -> Record {
    let mut fields = Fields::new();
    for (k, n) in pairs {
        fields.insert(k.to_string(), Value::Int(*n));
    }
    Record { lid, lobe_name: "l".to_string(), fields, created_at: 0, updated_at: 0 }
}

fn is(field: &str, n: i64) -> FilterExpr {
    FilterExpr::Condition(Filter {
        field: field.to_string(),
        op: AstOp::Eq,
        value: Literal::Int(n),
    })
}

/// `a = 1 OR NOT b = 2`.
fn either() -> Option<FilterExpr> {
    Some(FilterExpr::Or(vec![is("a", 1), FilterExpr::Not(Box::new(is("b", 2)))]))
}

fn records() -> Vec<Record> {
    vec![
        rec(0, &[("a", 1), ("b", 2), ("n", 4)]),
        rec(1, &[("a", 2), ("b", 2), ("n", 9)]),
        rec(2, &[("a", 2), ("b", 3), ("n", 7)]),
        rec(3, &[("b", 2), ("n", 8)]),
        rec(4, &[("a", 1), ("n", 1)]),
    ]
}

fn lids(v: &[Record]) -> Vec<u128> {
    v.iter().map(|r| r.lid).collect()
}

#[test]
fn a_condition_is_tested_as_a_whole() {
    let passed: Vec<u128> = records()
        .iter()
        .filter(|r| record_passes(&test, &either(), r))
        .map(|r| r.lid)
        .collect();
    assert_eq!(passed, vec![0, 2, 4]);
    assert!(records().iter().all(|r| record_passes(&test, &None, r)));
}

#[test]
fn a_scan_answers_with_what_passes() {
    let mut all = CappedScan::new(None);
    let mut two = CappedScan::new(Some(2));
    let mut going = Vec::new();
    for r in records() {
        assert!(all.offer_if(&either(), rec(r.lid, &[("a", 9), ("b", 2)]), &test));
        going.push(two.offer_if(&either(), r, &test));
    }
    assert_eq!(all.finish().0.len(), 0);
    let (kept, more) = two.finish();
    assert_eq!(lids(&kept), vec![0, 2]);
    assert!(more);
    assert_eq!(going, vec![true, true, true, true, false]);
}

#[test]
fn an_ordered_scan_answers_with_what_passes() {
    let mut scan = OrderedScan::new(2, true);
    for r in records() {
        let n = r.fields.get("n").map(|v| v.clone_value());
        scan.offer_if(&either(), n, r, &test);
    }
    assert_eq!(lids(&scan.finish()), vec![2, 0]);
}

#[test]
fn all_pages_together_hold_every_match_once() {
    for limit in 1..5u64 {
        let mut from: Option<Vec<u8>> = None;
        let mut pages: Vec<Vec<u128>> = Vec::new();
        loop {
            let mut page = PagedScan::new(limit);
            for r in records() {
                let key = vec![r.lid as u8; 22];
                if from.as_ref().is_some_and(|f| key < *f) {
                    continue;
                }
                if !page.offer_if(&either(), key, r, &test) {
                    break;
                }
            }
            let (found, tail, more) = page.finish();
            assert!(!more || found.len() as u64 == limit);
            pages.push(lids(&found));
            match next_page(tail, more, "p").unwrap() {
                Some(t) => from = Some(make_resume_key(&t)),
                None => break,
            }
        }
        assert_eq!(pages.concat(), vec![0, 2, 4]);
    }
}

#[test]
fn a_projection_answers_only_for_its_fields() {
    let names = |v: &[&str]| v.iter().map(|s| s.to_string()).collect::<Vec<String>>();
    assert!(projection_answers(&names(&["b", "a"]), &either()));
    assert!(!projection_answers(&names(&["a"]), &either()));
    assert!(projection_answers(&[], &None));
    assert!(!projection_answers(&names(&["a.b"]), &Some(is("a.b", 1))));
}

#[test]
fn embedded_records_are_held_to_the_condition() {
    let filter = Some(is("b", 2));
    let mut top = TopRecords::new(2);
    // The embedded fields answer.
    top.offer_if(Some(rec(1, &[("b", 3)])), None, &filter, &test);
    top.offer_if(Some(rec(2, &[("b", 2)])), None, &filter, &test);
    // They do not, so that the whole record is tested.
    top.offer_if(Some(rec(3, &[("a", 1)])), Some(rec(3, &[("a", 1), ("b", 3)])), &filter, &test);
    top.offer_if(Some(rec(4, &[("a", 1)])), Some(rec(4, &[("a", 1), ("b", 2)])), &filter, &test);
    top.offer_if(None, None, &filter, &test);
    top.offer(Some(rec(5, &[("b", 2)])), true);
    let taken = top.into_records();
    assert_eq!(lids(&taken), vec![2, 4]);
    assert!(taken[1].fields.get("b").is_none());
}

#[test]
fn a_rejected_candidate_is_not_taken() {
    let mut top = TopRecords::new(2);
    top.offer(Some(rec(1, &[])), false);
    top.offer(Some(rec(2, &[])), true);
    assert_eq!(lids(&top.into_records()), vec![2]);
}
