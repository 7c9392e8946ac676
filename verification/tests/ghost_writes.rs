use xyzdb_engine::aggregate_state::{AggOp, AggregateState, Metric};
use xyzdb_engine::ast::{Filter, FilterExpr, FilterOp as AstOp, Literal};
use xyzdb_engine::ghost_build::{created_message, EntryBuffer, GhostSpec};
use xyzdb_engine::ghost_meta::{GhostMeta, WriteType};
use xyzdb_engine::ghost_notify::{membership_change, takes_writes, Change, EntryOp, RollupOps};
use xyzdb_engine::ghost_ops::GhostOps;
use xyzdb_engine::ghost_spill::group_spill_limit;
use xyzdb_engine::ghost_store::GhostLobeManager;
use xyzdb_engine::keyspaces::StorageProfile;
use xyzdb_engine::record::{Fields, FilterOp, Record};
use xyzdb_engine::value::{values_equal, Value};

fn group_key(f: &Fields, names: &[String]) -> String {
    let mut k = String::new();
    for n in names {
        if let Some(Value::Text(s)) = f.get(n) {
            k.push_str(s);
        }
        k.push('|');
    }
    k
}

fn sort_key(id: u16, v: Option<&Value>, inverted: bool, tie: &[u8]) -> Vec<u8> {
    let n = match v {
        Some(Value::Int(n)) => (*n as u64) ^ (1 << 63),
        _ => 0,
    };
    let mut k = id.to_be_bytes().to_vec();
    k.extend_from_slice(&(if inverted { !n } else { n }).to_be_bytes());
    k.extend_from_slice(tie);
    k
}

fn pack(_: &Value) -> Option<Vec<u8>> {
    None
}

fn unpack(_: &[u8]) -> Option<Value> {
    None
}

fn add(s: &AggregateState, _: &Record, _: &Vec<Metric>) -> AggregateState {
    AggregateState { count: s.count + 1, dirty: s.dirty, body: s.body.clone() }
}

fn subtract(s: &AggregateState, _: &Record, _: &Vec<Metric>) -> AggregateState {
    AggregateState { count: s.count - 1, dirty: s.dirty, body: s.body.clone() }
}

type Ops = GhostOps<
    fn(&Fields, &[String]) -> String,
    fn(u16, Option<&Value>, bool, &[u8]) -> Vec<u8>,
    fn(&Value) -> Option<Vec<u8>>,
    fn(&[u8]) -> Option<Value>,
    fn(&AggregateState, &Record, &Vec<Metric>) -> AggregateState,
    fn(&AggregateState, &Record, &Vec<Metric>) -> AggregateState,
>;

fn ops() -> Ops {
    GhostOps { group_key, sort_key, pack, unpack, add, subtract }
}

fn rec(g: &str, n: i64) -> Record {
    let mut fields = Fields::new();
    fields.insert("g".to_string(), Value::Text(g.to_string()));
    fields.insert("n".to_string(), Value::Int(n));
    Record { lid: n as u128, lobe_name: "l".to_string(), fields, created_at: 0, updated_at: 0 }
}

fn spec(name: &str, group_fields: Vec<String>) -> GhostSpec {
    GhostSpec {
        name: name.to_string(),
        filter: FilterExpr::Condition(Filter {
            field: "g".to_string(),
            op: AstOp::Eq,
            value: Literal::Text("a".to_string()),
        }),
        order_by_field: "n".to_string(),
        sort_inverted: false,
        is_auto: false,
        aggregate_specs: vec![Metric::new(
            String::new(),
            AggOp::Count,
            "count".to_string(),
            None,
        )],
        group_fields,
        projection: vec![],
        metric_order: None,
    }
}

fn satisfies(r: &Record, p: &(String, FilterOp, Value)) -> bool {
    p.1 == FilterOp::Eq && matches!(r.fields.get(&p.0), Some(v) if values_equal(v, &p.2))
}

fn build(mgr: &mut GhostLobeManager, group_fields: Vec<String>) -> (GhostMeta, usize) {
    let mut b = mgr.begin_build(spec("g1", group_fields), 100).unwrap();
    let mut entries = 0;
    for (i, r) in [rec("a", 3), rec("b", 4), rec("a", 5)].iter().enumerate() {
        let key = vec![i as u8; 22];
        let leaf = |p: &(String, FilterOp, Value)| satisfies(r, p);
        if ops().feed_build(&mut b, r, &key, &leaf).is_some() {
            entries += 1;
        }
    }
    assert!(b.end_scan().is_empty());
    (b.finish(1, "l", 77, false), entries)
}

#[test]
fn a_build_takes_the_records_that_match() {
    let mut mgr = GhostLobeManager::new();
    let (meta, entries) = build(&mut mgr, vec![]);
    assert_eq!(entries, 2);
    assert_eq!(meta.index_count, 2);
    assert_eq!(meta.created_at, 77);
    assert_eq!(meta.aggregate.as_ref().unwrap().global_aggregates.count, 2);
    assert!(created_message(&meta).contains("g1"));
    assert!(takes_writes(&meta));
    mgr.insert_ghost(meta);
    assert!(mgr.begin_build(spec("g1", vec![]), 100).is_err());
    let taken = mgr.begin_batch(vec![spec("g2", vec![]), spec("g1", vec![])], 100);
    assert!(taken.is_err());
}

#[test]
fn the_numbers_of_a_batch_are_used_up() {
    let numbers = |mgr: &mut GhostLobeManager, names: &[&str]| -> Vec<u16> {
        let specs = names.iter().map(|n| spec(n, vec![])).collect();
        let builds = mgr.begin_batch(specs, 100).unwrap();
        builds.into_iter().map(|b| b.finish(1, "l", 77, false).ghost_id).collect()
    };
    let mut mgr = GhostLobeManager::new();
    assert_eq!(numbers(&mut mgr, &["a", "b"]), vec![1, 2]);
    assert_eq!(numbers(&mut mgr, &["c"]), vec![3]);
    let (meta, _) = build(&mut mgr, vec![]);
    assert_eq!(meta.ghost_id, 4);
    mgr.insert_ghost(meta);
    // The number that was given before the refusal is lost.
    assert!(mgr.begin_batch(vec![spec("d", vec![]), spec("g1", vec![])], 100).is_err());
    assert_eq!(numbers(&mut mgr, &["e"]), vec![6]);
    assert!(!mgr.bulk_mode());
}

#[test]
fn membership_follows_the_write() {
    let update = || WriteType::Update { old_record: rec("a", 1), old_spatial_key: vec![] };
    assert_eq!(membership_change(&WriteType::Insert, false, true), Change::Enter);
    assert_eq!(membership_change(&WriteType::Insert, false, false), Change::Unaffected);
    assert_eq!(membership_change(&WriteType::Delete, true, false), Change::Leave);
    assert_eq!(membership_change(&update(), true, true), Change::Stay);
    assert_eq!(membership_change(&update(), true, false), Change::Leave);
    assert_eq!(membership_change(&update(), false, true), Change::Enter);
    assert_eq!(membership_change(&update(), false, false), Change::Unaffected);
}

#[test]
fn a_moved_entry_is_written_before_the_old_one_is_removed() {
    let mut mgr = GhostLobeManager::new();
    let (meta, _) = build(&mut mgr, vec![]);
    let ops_list =
        ops().entry_ops(&meta, Change::Stay, &rec("a", 1), &rec("a", 2), &[1u8; 22], &[1u8; 22]);
    assert_eq!(ops_list.len(), 2);
    assert!(matches!(ops_list[0], EntryOp::Insert { .. }));
    assert!(matches!(ops_list[1], EntryOp::Remove { .. }));
    let enter =
        ops().entry_ops(&meta, Change::Enter, &rec("a", 2), &rec("a", 2), &[1u8; 22], &[1u8; 22]);
    let leave =
        ops().entry_ops(&meta, Change::Leave, &rec("a", 2), &rec("a", 2), &[1u8; 22], &[1u8; 22]);
    match (&enter[0], &leave[0]) {
        (EntryOp::Insert { key: a, .. }, EntryOp::Remove { key: b }) => assert_eq!(a, b),
        _ => panic!("what enters is inserted and what leaves is removed"),
    }
}

#[test]
fn counts_follow_the_entries_that_were_written() {
    let mut mgr = GhostLobeManager::new();
    let (mut meta, _) = build(&mut mgr, vec![]);
    let r = rec("a", 9);
    let done =
        ops().settle_entries(&mut meta, Change::Enter, &vec![true], &r, &r, false, true, 100);
    assert!(matches!(done, RollupOps::Append(v) if v.is_empty()));
    assert_eq!(meta.index_count, 3);
    assert_eq!(meta.aggregate.as_ref().unwrap().global_aggregates.count, 3);
    ops().settle_entries(&mut meta, Change::Leave, &vec![true], &r, &r, false, true, 100);
    assert_eq!(meta.index_count, 2);
    assert_eq!(meta.aggregate.as_ref().unwrap().global_aggregates.count, 2);
    ops().settle_entries(&mut meta, Change::Enter, &vec![true], &r, &r, true, true, 100);
    assert_eq!(meta.index_count, 3);
    assert_eq!(meta.aggregate.as_ref().unwrap().global_aggregates.count, 2);
}

#[test]
fn entries_are_flushed_in_the_order_of_their_keys() {
    let mut buffer = EntryBuffer::new();
    assert!(buffer.is_empty());
    assert!(!buffer.push(vec![2], vec![0], 1, 1000));
    assert!(!buffer.push(vec![1], vec![0], 2, 1000));
    let sorted = buffer.take_sorted();
    assert_eq!(sorted.iter().map(|e| e.0[0]).collect::<Vec<u8>>(), vec![1, 2]);
    assert!(buffer.is_empty());
    assert!(buffer.push(vec![1], vec![0], 3, 1));
}

#[test]
fn the_group_limit_is_configured() {
    assert_eq!(group_spill_limit(Some("10")), 10);
    assert_eq!(group_spill_limit(Some("x")), group_spill_limit(None));
}

#[test]
fn block_sizes_fit_the_storage() {
    assert!(StorageProfile::Hdd.ghost_block_size() >= StorageProfile::Ssd.ghost_block_size());
}
