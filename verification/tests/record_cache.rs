use xyzdb_engine::error::XyzError;
use xyzdb_engine::record::{Fields, Record};
use xyzdb_engine::record_cache::RecordCache;
use xyzdb_engine::value::Value;

fn mk_record(lid_seed: u64, payload_bytes: usize) -> (Record, usize) {
    let mut fields = Fields::new();
    let padding: String = (0..payload_bytes).map(|_| 'x').collect();
    fields.insert("data".to_string(), Value::Text(padding));
    let record = Record {
        lid: lid_seed as u128,
        lobe_name: "test_lobe".to_string(),
        fields,
        created_at: 0,
        updated_at: 0,
    };
    // The overhead of the name and the field beyond the payload.
    (record, payload_bytes + 100)
}

fn copy(r: &(Record, usize)) -> (Record, usize) {
    (r.0.clone_record(), r.1)
}

#[test]
fn evict_lru_frees_oldest_when_budget_exceeded() {
    let r1 = mk_record(1, 4000);
    let r2 = mk_record(2, 4000);
    let r3 = mk_record(3, 4000);
    let one_record = r1.1;
    let budget = one_record * 5 / 2;
    let mut cache = RecordCache::new(budget);
    cache.load_records(1, vec![copy(&r1), copy(&r2)]).unwrap();
    let _ = cache.get(1, r2.0.lid);
    cache.load_records(1, vec![copy(&r3)]).unwrap();
    assert!(
        cache.get(1, r1.0.lid).is_none(),
        "r1 should have been evicted"
    );
    assert!(cache.get(1, r2.0.lid).is_some());
    assert!(cache.get(1, r3.0.lid).is_some());
    assert!(
        cache.used_bytes() <= budget,
        "used_bytes must not exceed budget"
    );
}

#[test]
fn evict_lru_explicit_returns_bytes_freed() {
    let mut cache = RecordCache::new(10 * 1024);
    let r1 = mk_record(1, 1500);
    let r2 = mk_record(2, 1500);
    cache.load_records(1, vec![r1, r2]).unwrap();
    let freed = cache.evict_lru(1);
    assert!(freed > 0, "evict_lru(1) should free at least one record");
    assert_eq!(freed, 1600);
    assert!(cache.get(1, 1).is_none());
    assert!(cache.get(1, 2).is_some());
}

#[test]
fn load_records_fails_when_batch_exceeds_total_budget() {
    let mut cache = RecordCache::new(1024);
    let r1 = mk_record(1, 2048);
    let err = cache.load_records(1, vec![r1]).unwrap_err();
    assert!(format!("{err:?}").contains("exceeds total budget"));
}

#[test]
fn too_large_a_batch_is_told_in_megabytes() {
    let mut cache = RecordCache::new(2 * 1_048_576);
    let (record, _) = mk_record(1, 1);
    let err = cache.load_records(1, vec![(record, 5 * 1_048_576 + 7)]).unwrap_err();
    assert_eq!(
        err,
        XyzError::InvalidQuery(
            "INCACHE batch ~5MB exceeds total budget 2MB. Use WHERE to filter.".to_string()
        )
    );
}

#[test]
fn evict_lru_target_zero_is_noop() {
    let mut cache = RecordCache::new(10 * 1024);
    let r1 = mk_record(1, 1500);
    let lid = r1.0.lid;
    cache.load_records(1, vec![r1]).unwrap();
    let freed = cache.evict_lru(0);
    assert_eq!(freed, 0);
    assert!(cache.get(1, lid).is_some(), "noop must not evict");
}

#[test]
fn used_bytes_are_those_of_the_cached_records() {
    let mut cache = RecordCache::new(10_000);
    let r1 = mk_record(1, 900);
    cache.load_records(1, vec![copy(&r1)]).unwrap();
    cache.load_records(1, vec![copy(&r1)]).unwrap();
    assert_eq!(cache.used_bytes(), 1000);
    cache.update_record(1, &r1.0, 400);
    assert_eq!(cache.used_bytes(), 400);
    cache.update_record(2, &r1.0, 400);
    assert_eq!(cache.used_bytes(), 400);
    cache.invalidate_record(1, 1);
    assert_eq!(cache.used_bytes(), 0);
}

#[test]
fn a_batch_that_fits_the_budget_is_always_loaded() {
    let mut cache = RecordCache::new(100);
    let a = mk_record(1, 0);
    cache.load_records(1, vec![(a.0.clone_record(), 40)]).unwrap();
    cache.load_records(1, vec![(a.0, 40)]).unwrap();
    let b = mk_record(2, 0);
    assert_eq!(cache.load_records(1, vec![(b.0, 70)]), Ok(1));
    assert!(cache.get(1, 1).is_none());
    assert!(cache.get(1, 2).is_some());
    assert_eq!(cache.used_bytes(), 70);
}

#[test]
fn lobes_are_told_apart() {
    let mut cache = RecordCache::new(100_000);
    cache.load_records(1, vec![mk_record(1, 10), mk_record(2, 20)]).unwrap();
    cache.load_records(2, vec![mk_record(1, 30)]).unwrap();
    assert!(cache.has_lobe(1));
    assert!(!cache.has_lobe(3));
    let stats = cache.stats();
    assert_eq!(stats.lobes.len(), 2);
    assert_eq!(stats.lobes[0].lobe_id, 1);
    assert_eq!(stats.lobes[0].record_count, 2);
    assert_eq!(stats.lobes[0].estimated_bytes, 230);
    assert_eq!(stats.lobes[1].record_count, 1);
    assert_eq!(stats.used_bytes, 360);
    assert_eq!(stats.budget_bytes, 100_000);
    cache.evict_lobe(1);
    assert!(!cache.has_lobe(1));
    assert!(cache.get(2, 1).is_some());
    assert_eq!(cache.stats().lobes.len(), 1);
    assert_eq!(cache.used_bytes(), 130);
}

#[test]
fn scan_uses_the_records_that_pass() {
    let mut cache = RecordCache::new(100_000);
    cache
        .load_records(1, vec![mk_record(1, 10), mk_record(2, 10), mk_record(3, 10)])
        .unwrap();
    let odd = cache.scan_lobe(1, |r: &Record| r.lid % 2 == 1);
    let mut lids: Vec<u128> = odd.iter().map(|r| r.lid).collect();
    lids.sort();
    assert_eq!(lids, vec![1, 3]);
    // The record that was passed over is now the one used longest ago.
    assert_eq!(cache.evict_lru(1), 110);
    assert!(cache.get(1, 2).is_none());
    assert_eq!(cache.scan_lobe(9, |_: &Record| true).len(), 0);
}
