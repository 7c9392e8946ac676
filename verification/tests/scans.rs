use xyzdb_engine::aggregate::{Aggregate, AggregateFunc};
use xyzdb_engine::error::XyzError;
use xyzdb_engine::ghost_router::ScanSource;
use xyzdb_engine::planner::QueryResult;
use xyzdb_engine::record::{Fields, FilterOp, Record};
use xyzdb_engine::scan::{
    admit_aggregation, cap_ghost_rows, check_cursor, cursor_answer, fallback_route, lobe_end, route_scan,
    scan_answer, source_name, start_scan, top_order_label, validate_no_cursor_for_aggregate,
    validate_scan_limit_cap, write_chunk, CursorBinding, ScanCap, ScanLimits, ScanRoute,
    ScanStart,
};
use xyzdb_engine::scan_collect::{
    make_resume_key, next_page, CappedScan, CountedScan, OrderedScan, PagedScan,
};
use xyzdb_engine::value::Value;

fn rec(lid: u128) -> Record {
    Record {
        lid,
        lobe_name: "l".to_string(),
        fields: Fields::new(),
        created_at: 0,
        updated_at: 0,
    }
}

fn capped(n: u128, limit: Option<u64>) -> (Vec<Record>, bool) {
    let mut scan = CappedScan::new(limit);
    for i in 0..n {
        if !scan.offer(rec(i)) {
            break;
        }
    }
    scan.finish()
}

#[test]
fn full_expr_leaf_overscans_and_reports_truncation() {
    let (recs, more) = capped(1001, Some(1000));
    assert_eq!(recs.len(), 1000);
    assert!(more, "full-expr leaf must report truncation past the cap");

    let (all, more_none) = capped(1001, None);
    assert_eq!(all.len(), 1001);
    assert!(!more_none, "an uncapped scan never reports truncation");

    let (exact, more_exact) = capped(1001, Some(1001));
    assert_eq!(exact.len(), 1001);
    assert!(
        !more_exact,
        "a result that exactly fills the cap must not over-signal"
    );
}

#[test]
fn pages_make_the_scan() {
    let keys: Vec<Vec<u8>> = (0..7u8).map(|i| vec![i; 22]).collect();
    let mut from: Option<Vec<u8>> = None;
    let mut seen = Vec::new();
    loop {
        let mut page = PagedScan::new(3);
        for (i, k) in keys.iter().enumerate() {
            if from.as_ref().is_some_and(|f| k < f) {
                continue;
            }
            if !page.offer(k.clone(), rec(i as u128)) {
                break;
            }
        }
        let (records, tail, has_more) = page.finish();
        seen.extend(records.iter().map(|r| r.lid));
        match next_page(tail, has_more, "p").unwrap() {
            Some(t) => from = Some(make_resume_key(&t)),
            None => break,
        }
    }
    assert_eq!(seen, vec![0, 1, 2, 3, 4, 5, 6]);
    assert_eq!(
        next_page(None, true, "has_more without page tail"),
        Err(XyzError::Internal("has_more without page tail".to_string()))
    );
}

#[test]
fn an_ordered_scan_keeps_the_first() {
    let mut scan = OrderedScan::new(2, true);
    for (lid, n) in [(1u128, 5i64), (2, 9), (3, 7)] {
        scan.offer(Some(Value::Int(n)), rec(lid));
    }
    let lids: Vec<u128> = scan.finish().iter().map(|r| r.lid).collect();
    assert_eq!(lids, vec![2, 3]);
}

#[test]
fn a_counted_scan_stops_at_its_limit() {
    let mut scan = CountedScan::new(Some(2));
    assert!(scan.note());
    assert!(!scan.note());
    assert_eq!(scan.counted(), 2);
}

#[test]
fn limits_are_capped() {
    assert_eq!(validate_scan_limit_cap(Some(10_000)), Ok(()));
    let err = validate_scan_limit_cap(Some(10_001)).unwrap_err();
    assert!(format!("{err:?}").contains("LIMIT 10001 exceeds hard maximum 10000"));
    assert_eq!(validate_no_cursor_for_aggregate(false), Ok(()));
    assert!(validate_no_cursor_for_aggregate(true).is_err());
}

#[test]
fn an_aggregation_by_groups_looks_at_its_limit_before_its_names() {
    let count = || Aggregate { func: AggregateFunc::Count, alias: None, filter: None };
    let twice = vec![count(), count()];
    let once = vec![count()];
    assert_eq!(admit_aggregation(false, Some(10_000), &once, true), Ok(()));
    assert!(matches!(
        admit_aggregation(false, Some(10_001), &twice, false),
        Err(XyzError::Parse(m)) if m.contains("duplicate aggregate label")
    ));
    assert!(matches!(
        admit_aggregation(false, Some(10_001), &twice, true),
        Err(XyzError::InvalidQuery(m)) if m.contains("hard maximum")
    ));
    assert!(matches!(
        admit_aggregation(false, Some(10_001), &once, false),
        Err(XyzError::InvalidQuery(m)) if m.contains("hard maximum")
    ));
    assert!(matches!(
        admit_aggregation(true, Some(10_001), &twice, false),
        Err(XyzError::InvalidQuery(m)) if m.contains("CURSOR")
    ));
}

#[test]
fn a_scan_starts_fresh_or_at_its_cursor() {
    assert!(matches!(start_scan(None, false, true, ScanCap::Capped), Ok(ScanStart::Cursor)));
    assert!(start_scan(Some(5), true, true, ScanCap::Capped).is_err());
    assert!(start_scan(None, true, false, ScanCap::Capped).is_err());
    match start_scan(None, false, false, ScanCap::Capped).unwrap() {
        ScanStart::Fresh(l) => assert_eq!(l.scan_limit, Some(1000)),
        ScanStart::Cursor => panic!("no cursor"),
    }
    match start_scan(None, false, false, ScanCap::NearestUncapped { budget_ms: 50 }).unwrap() {
        ScanStart::Fresh(l) => assert_eq!(l.gravity_limit, None),
        ScanStart::Cursor => panic!("no cursor"),
    }
}

fn limits() -> ScanLimits {
    ScanLimits { scan_limit: Some(10), gravity_limit: Some(10), gravity_budget: 0 }
}

#[test]
fn a_scan_goes_where_it_is_cheapest() {
    let ghost = ScanSource::GhostRecords("g".to_string());
    assert!(matches!(
        route_scan(&ghost, Some(5), limits(), None),
        ScanRoute::GhostTopN { name, n: 5 } if name == "g"
    ));
    assert!(matches!(
        route_scan(&ghost, None, limits(), None),
        ScanRoute::GhostScan { name, .. } if name == "g"
    ));
    assert!(matches!(
        route_scan(&ScanSource::Primary, Some(5), limits(), Some(3)),
        ScanRoute::GravityTopN { hash: 3, n: 5 }
    ));
    assert!(matches!(
        route_scan(&ScanSource::Primary, None, limits(), Some(3)),
        ScanRoute::Gravity { hash: 3, limit: Some(10), .. }
    ));
    assert!(matches!(
        fallback_route(None, limits(), None),
        ScanRoute::FullExpr { limit: Some(10) }
    ));
    assert!(matches!(fallback_route(Some(5), limits(), None), ScanRoute::FullTopN { n: 5 }));
}

#[test]
fn answers_tell_whether_there_is_more() {
    let (rows, more) = cap_ghost_rows(vec![rec(1), rec(2), rec(3)], Some(2));
    assert_eq!(rows.len(), 2);
    assert!(more);
    assert!(matches!(
        scan_answer(rows, None, true, ScanCap::Capped),
        QueryResult::PaginatedRecords { has_more: true, cursor: None, .. }
    ));
    assert!(matches!(
        cursor_answer(vec![], Some("t".to_string()), true),
        QueryResult::PaginatedRecords { has_more: true, cursor: Some(c), .. } if c == "t"
    ));
    assert_eq!(source_name(&ScanSource::Primary), "primary");
    assert_eq!(source_name(&ScanSource::GhostRecords("g".to_string())), "ghost:g");
}

#[test]
fn a_cursor_fits_its_query() {
    let b = |lobe_id, filter_checksum| CursorBinding { lobe_id, filter_checksum };
    assert_eq!(check_cursor(b(1, 2), b(1, 2)), Ok(()));
    let err = check_cursor(b(1, 2), b(3, 2)).unwrap_err();
    assert!(format!("{err:?}")
        .contains("token issued for lobe_id=1, current request targets lobe_id=3"));
    assert!(check_cursor(b(1, 2), b(1, 5)).is_err());
    assert_eq!(lobe_end(1), Ok(vec![0, 2]));
    assert!(lobe_end(u16::MAX).is_err());
}

#[test]
fn chunks_have_their_length_in_front() {
    let c = write_chunk(b"abc");
    assert_eq!(c.len(), 7);
    assert_eq!(&c[4..], b"abc");
    assert_eq!(&c[..4], &3u32.to_be_bytes());
}

#[test]
fn only_a_plain_top_is_read_in_order() {
    let none: Vec<(String, FilterOp, Value)> = vec![];
    assert_eq!(top_order_label(None, &none, &[]), None);
}
