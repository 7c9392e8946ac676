use xyzdb_engine::aggregate_state::{AggregateState, Metric};
use xyzdb_engine::ast::{Filter, FilterExpr, FilterOp as AstOp, Literal};
use xyzdb_engine::error::XyzError;
use xyzdb_engine::filter::matches_core_expr;
use xyzdb_engine::ghost_meta::{
    AccessTelemetry, AggregateContent, AutoClass, GhostLifecycle, GhostMeta, GhostType, Grouping,
    OverheadTracker, Residency,
};
use xyzdb_engine::ghost_ops::GhostOps;
use xyzdb_engine::ghost_persist::{
    decode_persisted_ghost_meta, flatten, frame_ghost_meta, restore, MetaBytes,
    PersistedGhostMeta, GHOST_META_FORMAT,
};
use xyzdb_engine::ghost_store::GhostLobeManager;
use xyzdb_engine::record::{Fields, FilterOp, Record};
use xyzdb_engine::sorted_map::SortedMap;
use xyzdb_engine::value::{values_equal, Value};

const MAGIC: [u8; 2] = [0x58, 0x5A];

/// A moment long after the epoch, in microseconds.
const NOW: i64 = 1_700_000_000_000_000;

// ---------------------------------------------------------------------------
// Embedded fields
// ---------------------------------------------------------------------------
fn group_key(_: &Fields, _: &[String]) -> String {
    String::new()
}

fn sort_key(id: u16, _: Option<&Value>, _: bool, tie: &[u8]) -> Vec<u8> {
    let mut k = id.to_be_bytes().to_vec();
    k.extend_from_slice(tie);
    k
}

fn pack(v: &Value) -> Option<Vec<u8>> {
    match v {
        Value::Text(s) => Some([&[1u8], s.as_bytes()].concat()),
        Value::Int(n) => Some([&[2u8], &n.to_be_bytes()[..]].concat()),
        Value::Float(bits) => Some([&[3u8], &bits.to_be_bytes()[..]].concat()),
        _ => None,
    }
}

fn unpack(b: &[u8]) -> Option<Value> {
    let (tag, rest) = b.split_first()?;
    match tag {
        1 => Some(Value::Text(String::from_utf8(rest.to_vec()).ok()?)),
        2 => Some(Value::Int(i64::from_be_bytes(rest.try_into().ok()?))),
        3 => Some(Value::Float(u64::from_be_bytes(rest.try_into().ok()?))),
        _ => None,
    }
}

fn add(s: &AggregateState, _: &Record, _: &Vec<Metric>) -> AggregateState {
    AggregateState { count: s.count + 1, dirty: true, body: s.body.clone() }
}

fn subtract(s: &AggregateState, _: &Record, _: &Vec<Metric>) -> AggregateState {
    AggregateState { count: s.count - 1, dirty: true, body: s.body.clone() }
}

type Ops = GhostOps<
    fn(&Fields, &[String]) -> String,
    fn(u16, Option<&Value>, bool, &[u8]) -> Vec<u8>,
    fn(&Value) -> Option<Vec<u8>>,
    fn(&[u8]) -> Option<Value>,
    fn(&AggregateState, &Record, &Vec<Metric>) -> AggregateState,
    fn(&AggregateState, &Record, &Vec<Metric>) -> AggregateState,
>;

fn ops() -> Ops {
    GhostOps { group_key, sort_key, pack, unpack, add, subtract }
}

fn has(f: &Fields, name: &str, v: &Value) -> bool {
    matches!(f.get(name), Some(found) if values_equal(found, v))
}

#[test]
fn test_embed_roundtrip() {
    let spatial_key = vec![0xAA; 18];
    let mut fields = Fields::new();
    fields.insert("monto".to_string(), Value::Float(12345.67f64.to_bits()));
    fields.insert("rfc".to_string(), Value::Text("ABCD123456ABC".to_string()));
    fields.insert("status".to_string(), Value::Text("active".to_string()));
    fields.insert("extra".to_string(), Value::Int(999));
    let record = Record {
        lid: 0,
        lobe_name: "creditos".to_string(),
        fields,
        created_at: 0,
        updated_at: 0,
    };
    let projection = vec!["monto".to_string(), "rfc".to_string(), "status".to_string()];
    let encoded = ops().encode_ghost_value(&spatial_key, &record, &projection);
    println!(
        "encoded len: {} (spatial=18, extra={})",
        encoded.len(),
        encoded.len() - 18
    );
    assert!(
        encoded.len() > 18,
        "EMBED should produce more than 18 bytes"
    );
    assert_eq!(&encoded[..18], &spatial_key[..]);
    let decoded = ops().decode_ghost_projection(&encoded, 18, "creditos");
    assert!(decoded.is_some(), "decode should succeed");
    let rec = decoded.unwrap();
    assert!(has(&rec.fields, "monto", &Value::Float(12345.67f64.to_bits())));
    assert!(has(&rec.fields, "rfc", &Value::Text("ABCD123456ABC".to_string())));
    assert!(has(&rec.fields, "status", &Value::Text("active".to_string())));
    assert!(
        !rec.fields.contains_key("extra"),
        "extra field should not be in projection"
    );
    println!("EMBED roundtrip OK: {} fields decoded", rec.fields.len());
}

#[test]
fn test_embed_empty_projection() {
    let spatial_key = vec![0xBB; 18];
    let record = Record {
        lid: 0,
        lobe_name: "test".to_string(),
        fields: Fields::new(),
        created_at: 0,
        updated_at: 0,
    };
    let encoded = ops().encode_ghost_value(&spatial_key, &record, &[]);
    assert_eq!(
        encoded.len(),
        18,
        "empty projection should be spatial key only"
    );
}

// ---------------------------------------------------------------------------
// The store
// ---------------------------------------------------------------------------
fn skeleton_meta(name: &str) -> GhostMeta {
    GhostMeta {
        name: name.to_string(),
        ghost_id: 1,
        version: 2,
        lobe_id: 1,
        source_lobe: "data".to_string(),
        filter: FilterExpr::And(vec![]),
        order_by_field: String::new(),
        sort_inverted: false,
        metric_order: None,
        order_emitted_at: None,
        state: 1,
        index_count: 0,
        aggregate: None,
        projection: vec![],
        created_at: 0,
        last_accessed: 0,
        incremental_updates: 0,
        lifecycle: GhostLifecycle::Auto {
            class: AutoClass::Ephemeral,
            ttl_seconds: 86_400,
            telemetry: AccessTelemetry::default(),
        },
        core_filters_cache: None,
        maintenance_degraded: false,
    }
}

fn ephemeral_with(name: &str, source_lobe: &str, last_accessed: i64) -> GhostMeta {
    let mut m = skeleton_meta(name);
    m.source_lobe = source_lobe.to_string();
    m.last_accessed = last_accessed;
    m.set_lifecycle(GhostType::Ephemeral, Some(86_400));
    m
}

#[test]
fn identify_lru_returns_oldest_of_matching_type() {
    let mut mgr = GhostLobeManager::new();
    mgr.insert_ghost(ephemeral_with("g_a", "data", 3000));
    mgr.insert_ghost(ephemeral_with("g_b", "data", 1000));
    mgr.insert_ghost(ephemeral_with("g_c", "data", 2000));
    assert_eq!(
        mgr.identify_lru("data", GhostType::Ephemeral).as_deref(),
        Some("g_b")
    );
}

#[test]
fn identify_lru_respects_source_lobe() {
    let mut mgr = GhostLobeManager::new();
    mgr.insert_ghost(ephemeral_with("g_data", "data", 1000));
    mgr.insert_ghost(ephemeral_with("g_other", "other", 500));
    assert_eq!(
        mgr.identify_lru("data", GhostType::Ephemeral).as_deref(),
        Some("g_data")
    );
}

#[test]
fn identify_lru_respects_ghost_type() {
    let mut mgr = GhostLobeManager::new();
    let mut perm = ephemeral_with("g_perm", "data", 100);
    perm.set_lifecycle(GhostType::Permanent, None);
    mgr.insert_ghost(perm);
    mgr.insert_ghost(ephemeral_with("g_eph", "data", 500));
    assert_eq!(
        mgr.identify_lru("data", GhostType::Ephemeral).as_deref(),
        Some("g_eph")
    );
    assert_eq!(mgr.identify_lru("other", GhostType::Ephemeral), None);
}

#[test]
fn identify_lru_empty_returns_none() {
    let mgr = GhostLobeManager::new();
    assert_eq!(mgr.identify_lru("data", GhostType::Ephemeral), None);
}

#[test]
fn identify_lru_ties_break_by_name_ascending() {
    let mut mgr = GhostLobeManager::new();
    mgr.insert_ghost(ephemeral_with("g_z", "data", 1000));
    mgr.insert_ghost(ephemeral_with("g_a", "data", 1000));
    mgr.insert_ghost(ephemeral_with("g_m", "data", 1000));
    assert_eq!(
        mgr.identify_lru("data", GhostType::Ephemeral).as_deref(),
        Some("g_a")
    );
}

#[test]
fn count_by_type_counts_correctly() {
    let mut mgr = GhostLobeManager::new();
    mgr.insert_ghost(ephemeral_with("g1", "data", 100));
    mgr.insert_ghost(ephemeral_with("g2", "data", 200));
    mgr.insert_ghost(ephemeral_with("g3", "other", 300));
    let mut perm = ephemeral_with("g4", "data", 400);
    perm.set_lifecycle(GhostType::Permanent, None);
    mgr.insert_ghost(perm);
    assert_eq!(mgr.count_by_type("data", GhostType::Ephemeral), 2);
    assert_eq!(mgr.count_by_type("data", GhostType::Permanent), 1);
    assert_eq!(mgr.count_by_type("other", GhostType::Ephemeral), 1);
    assert_eq!(mgr.count_by_type("missing", GhostType::Ephemeral), 0);
}

#[test]
fn identify_promotable_detects_seven_bits_set() {
    let mut mgr = GhostLobeManager::new();
    let mut meta = ephemeral_with("g_7d", "data", 100);
    meta.telemetry_mut().unwrap().daily_access_bitmap = 0b0111_1111;
    mgr.insert_ghost(meta);
    assert_eq!(mgr.identify_promotable(), vec!["g_7d".to_string()]);
}

#[test]
fn identify_promotable_ignores_six_consecutive_bits() {
    let mut mgr = GhostLobeManager::new();
    let mut meta = ephemeral_with("g_6d", "data", 100);
    meta.telemetry_mut().unwrap().daily_access_bitmap = 0b0011_1111;
    mgr.insert_ghost(meta);
    assert!(mgr.identify_promotable().is_empty());
}

#[test]
fn identify_promotable_ignores_high_bits_beyond_seven() {
    let mut mgr = GhostLobeManager::new();
    let mut meta = ephemeral_with("g_full", "data", 100);
    meta.telemetry_mut().unwrap().daily_access_bitmap = 0xFFFF_FFFF;
    mgr.insert_ghost(meta);
    assert_eq!(mgr.identify_promotable(), vec!["g_full".to_string()]);
}

#[test]
fn identify_promotable_ignores_permanent_and_promoted() {
    let mut mgr = GhostLobeManager::new();
    let mut perm = ephemeral_with("g_perm", "data", 100);
    perm.set_lifecycle(GhostType::Permanent, None);
    mgr.insert_ghost(perm);
    let mut prom = ephemeral_with("g_prom", "data", 100);
    prom.set_lifecycle(GhostType::Promoted, None);
    prom.telemetry_mut().unwrap().daily_access_bitmap = 0x7F;
    mgr.insert_ghost(prom);
    assert!(mgr.identify_promotable().is_empty());
}

#[test]
fn permanent_ghost_never_expires_even_with_ancient_last_accessed() {
    let mut mgr = GhostLobeManager::new();
    let mut meta = skeleton_meta("g_permanent");
    meta.set_lifecycle(GhostType::Permanent, None);
    meta.last_accessed = 0;
    mgr.insert_ghost(meta);
    let expired = mgr.identify_expired_ghosts(NOW);
    assert!(
        expired.is_empty(),
        "Permanent ghost must never be flagged expired"
    );
}

#[test]
fn fresh_ephemeral_is_not_expired() {
    let mut mgr = GhostLobeManager::new();
    let mut meta = skeleton_meta("g_fresh");
    meta.set_lifecycle(GhostType::Ephemeral, Some(86_400));
    meta.last_accessed = NOW;
    mgr.insert_ghost(meta);
    assert!(mgr.identify_expired_ghosts(NOW).is_empty());
}

#[test]
fn stale_ephemeral_is_expired() {
    let mut mgr = GhostLobeManager::new();
    let mut meta = skeleton_meta("g_stale");
    meta.set_lifecycle(GhostType::Ephemeral, Some(86_400));
    meta.last_accessed = 0;
    meta.lobe_id = 7;
    mgr.insert_ghost(meta);
    let expired = mgr.identify_expired_ghosts(NOW);
    assert_eq!(expired.len(), 1);
    assert_eq!(expired[0].name, "g_stale");
    assert_eq!(expired[0].lobe_id, 7);
}

#[test]
fn ephemeral_within_ttl_is_not_expired() {
    let mut mgr = GhostLobeManager::new();
    let mut meta = skeleton_meta("g_recent");
    meta.set_lifecycle(GhostType::Ephemeral, Some(86_400));
    meta.last_accessed = NOW - (12 * 3600 * 1_000_000);
    mgr.insert_ghost(meta);
    assert!(mgr.identify_expired_ghosts(NOW).is_empty());
}

#[test]
fn clock_skew_backward_does_not_expire() {
    let mut mgr = GhostLobeManager::new();
    let mut meta = skeleton_meta("g_skew");
    meta.set_lifecycle(GhostType::Ephemeral, Some(60));
    meta.last_accessed = NOW + (3600 * 1_000_000);
    mgr.insert_ghost(meta);
    assert!(mgr.identify_expired_ghosts(NOW).is_empty());
}

fn bitmap_of(m: &GhostMeta) -> u32 {
    m.telemetry().unwrap().daily_access_bitmap
}

#[test]
fn rotate_bitmaps_advances_day_shifts_bits() {
    let mut mgr = GhostLobeManager::new();
    let mut meta = skeleton_meta("g");
    meta.telemetry_mut().unwrap().daily_access_bitmap = 0b0111_1111;
    mgr.insert_ghost(meta);
    let mut last = 10_i64;
    mgr.rotate_bitmaps_if_needed(11, &mut last);
    assert_eq!(last, 11, "last_rotation advances");
    let bitmap = mgr.with_ghost("g", bitmap_of).unwrap();
    assert_eq!(bitmap, 0b0011_1111, "bit 0 drops, bit 6 becomes bit 7");
}

#[test]
fn rotate_bitmaps_same_day_is_noop() {
    let mut mgr = GhostLobeManager::new();
    let mut meta = skeleton_meta("g");
    meta.telemetry_mut().unwrap().daily_access_bitmap = 0b1010_1010;
    mgr.insert_ghost(meta);
    let mut last = 42_i64;
    mgr.rotate_bitmaps_if_needed(42, &mut last);
    assert_eq!(last, 42, "last_rotation unchanged");
    let bitmap = mgr.with_ghost("g", bitmap_of).unwrap();
    assert_eq!(bitmap, 0b1010_1010, "bitmap unchanged on same-day tick");
}

#[test]
fn rotate_bitmaps_on_empty_manager_does_not_panic() {
    let mut mgr = GhostLobeManager::new();
    let mut last = 0_i64;
    mgr.rotate_bitmaps_if_needed(1, &mut last);
    assert_eq!(last, 1);
}

#[test]
fn bump_access_updates_tracking_fields() {
    let mut mgr = GhostLobeManager::new();
    mgr.insert_ghost(skeleton_meta("g"));
    mgr.bump_access("g", NOW);
    mgr.bump_access("g", NOW);
    mgr.bump_access("g", NOW);
    mgr.with_ghost("g", |meta: &GhostMeta| {
        let telemetry = meta.telemetry().expect("auto ghost has telemetry");
        assert_eq!(telemetry.access_count_total, 3);
        assert_eq!(telemetry.daily_access_bitmap & 1, 1, "today bit set");
        assert!(
            meta.last_accessed > 0,
            "last_accessed bumped to a real timestamp"
        );
    })
    .expect("ghost still present");
}

#[test]
fn bump_access_missing_ghost_is_noop() {
    let mut mgr = GhostLobeManager::new();
    mgr.bump_access("does-not-exist", NOW);
    assert!(mgr.is_empty());
}

#[test]
fn promotion_renames_the_ghost_and_lengthens_its_life() {
    let mut mgr = GhostLobeManager::new();
    mgr.insert_ghost(skeleton_meta("auto_x"));
    assert_eq!(mgr.promote_ghost("auto_x", |_: &GhostMeta| Ok(())), Ok("promoted_x".to_string()));
    assert!(!mgr.contains_ghost("auto_x"));
    let kind = mgr.with_ghost("promoted_x", |m: &GhostMeta| (m.ghost_type(), m.ttl_seconds()));
    assert_eq!(kind, Some((GhostType::Promoted, Some(2_592_000))));
    assert!(mgr.promote_ghost("promoted_x", |_: &GhostMeta| Ok(())).is_err());
    assert!(mgr.promote_ghost("missing", |_: &GhostMeta| Ok(())).is_err());
    mgr.insert_ghost(skeleton_meta("odd"));
    assert_eq!(mgr.promote_ghost("odd", |_: &GhostMeta| Ok(())), Ok("odd_promoted".to_string()));
}

#[test]
fn ghosts_are_listed_by_lobe_and_name() {
    let mut mgr = GhostLobeManager::new();
    for (name, lobe) in [("b", 1u16), ("a", 2), ("a2", 1)] {
        let mut m = skeleton_meta(name);
        m.lobe_id = lobe;
        mgr.insert_ghost(m);
    }
    let names: Vec<String> = mgr.list(NOW).iter().map(|g| g.name.clone()).collect();
    assert_eq!(names, vec!["a2".to_string(), "b".to_string(), "a".to_string()]);
    assert!(mgr.has_shard(2));
    assert!(!mgr.has_shard(3));
    assert_eq!(mgr.ghost_count(), 3);
}

#[test]
fn dropped_ghosts_are_gone() {
    let mut mgr = GhostLobeManager::new();
    let mut m = skeleton_meta("g");
    m.ghost_id = 77;
    mgr.insert_ghost(m);
    assert_eq!(mgr.drop_ghost("g"), Ok((77, "Ghost 'g' dropped".to_string())));
    assert!(mgr.drop_ghost("g").is_err());
    assert_eq!(mgr.ghost_id("g"), None);
}

#[test]
fn the_hook_average_lies_between_its_samples() {
    let mut t = OverheadTracker::new();
    t.update(100);
    t.update(200);
    assert!(t.avg_hook_ns() >= 100 && t.avg_hook_ns() <= 200);
}

#[test]
fn grouping_is_by_its_fields() {
    assert!(!Grouping::from_fields(vec![]).is_grouped());
    let g = Grouping::from_fields(vec!["rfc".to_string()]);
    assert!(g.is_grouped());
    assert_eq!(g.fields(), &["rfc".to_string()]);
}

// ---------------------------------------------------------------------------
// Persisted metadata
// ---------------------------------------------------------------------------
#[test]
fn unknown_format_byte_is_not_corrupt() {
    let mut val = Vec::new();
    val.extend_from_slice(&MAGIC);
    val.push(0xFF);
    val.extend_from_slice(&[0x00, 0x01, 0x02]);
    match decode_persisted_ghost_meta(MAGIC, &val) {
        MetaBytes::UnknownFormat { found } => assert_eq!(found, 0xFF),
        MetaBytes::Payload(_) => panic!("should not decode a record with unknown format"),
    }
}

#[test]
fn missing_magic_is_unknown_format() {
    let val = [0xAA, 0xBB, 0xCC];
    assert!(matches!(
        decode_persisted_ghost_meta(MAGIC, &val),
        MetaBytes::UnknownFormat { .. }
    ));
}

fn persisted() -> PersistedGhostMeta {
    PersistedGhostMeta {
        name: "g_alive".to_string(),
        ghost_id: 7,
        version: 2,
        lobe_id: 1,
        source_lobe: "data".to_string(),
        is_auto: false,
        filter: FilterExpr::And(vec![]),
        order_by_field: String::new(),
        sort_inverted: false,
        metric_order: None,
        order_emitted_at: None,
        state: 1,
        index_count: 0,
        aggregate_specs: vec![],
        global_aggregates: AggregateState::default(),
        group_fields: vec![],
        group_summaries: SortedMap::new(),
        spilled: false,
        projection: vec![],
        created_at: 0,
        last_accessed: 0,
        incremental_updates: 0,
        ghost_type: GhostType::Permanent,
        ttl_seconds: None,
        daily_access_bitmap: 0,
        access_count_total: 0,
    }
}

#[test]
fn current_format_with_valid_payload_round_trips() {
    let persisted = persisted();
    let payload = postcard::to_allocvec(&(
        persisted.name.clone(),
        persisted.ghost_id,
        persisted.ttl_seconds,
    ))
    .expect("serialize");
    let mut val = Vec::with_capacity(3 + payload.len());
    val.extend_from_slice(&MAGIC);
    val.push(GHOST_META_FORMAT);
    val.extend_from_slice(&payload);
    assert_eq!(frame_ghost_meta(MAGIC, &payload), val);

    match decode_persisted_ghost_meta(MAGIC, &val) {
        MetaBytes::Payload(p) => {
            let (name, id, ttl): (String, u16, Option<u64>) = postcard::from_bytes(&p).unwrap();
            assert_eq!(name, "g_alive");
            assert_eq!(id, 7);
            assert_eq!(ttl, None);
        }
        other => panic!("expected Ok, got {:?}", other),
    }
    let meta = restore(persisted, NOW);
    assert_eq!(meta.name, "g_alive");
    assert_eq!(meta.ghost_type(), GhostType::Permanent);
    assert_eq!(meta.ttl_seconds(), None);
}

#[test]
fn restored_metadata_is_what_was_written() {
    let mut m = skeleton_meta("g");
    m.ghost_id = 3;
    m.projection = vec!["a".to_string()];
    let back = restore(flatten(&m), NOW);
    assert_eq!(back.name, "g");
    assert_eq!(back.ghost_id, 3);
    assert_eq!(back.projection, vec!["a".to_string()]);
    assert_eq!(back.ghost_type(), GhostType::Ephemeral);
    assert_eq!(back.last_accessed, NOW);
}

#[test]
fn loading_skips_what_was_purged() {
    let stale = |name: &str, id: u16| {
        let mut p = persisted();
        p.name = name.to_string();
        p.ghost_id = id;
        p.is_auto = true;
        p.ghost_type = GhostType::Ephemeral;
        p.ttl_seconds = Some(1);
        p
    };
    let mut mgr = GhostLobeManager::new();
    let report = mgr.load_all(
        vec![(persisted(), false), (stale("gone", 12), true), (stale("kept", 13), false)],
        NOW,
    );
    assert_eq!(mgr.ghost_names(), vec!["g_alive".to_string(), "kept".to_string()]);
    assert_eq!(report.len(), 2);
    assert_eq!(mgr.ghost_id("kept"), Some(13));
    assert!(mgr.alloc_id() > 13);
}

// ---------------------------------------------------------------------------
// The filter of a ghost
// ---------------------------------------------------------------------------
fn rec_status(s: &str) -> Record {
    let mut fields = Fields::new();
    fields.insert("status".to_string(), Value::Text(s.to_string()));
    Record { lid: 0, lobe_name: "l".to_string(), fields, created_at: 0, updated_at: 0 }
}

fn is_status(s: &str) -> FilterExpr {
    FilterExpr::Condition(Filter {
        field: "status".to_string(),
        op: AstOp::Eq,
        value: Literal::Text(s.to_string()),
    })
}

fn matches(r: &Record, m: &GhostMeta) -> bool {
    let cache = m.core_filters_cache.as_ref().unwrap();
    matches_core_expr(cache, &|p: &(String, FilterOp, Value)| {
        p.1 == FilterOp::Eq && has(&r.fields, &p.0, &p.2)
    })
}

#[test]
fn core_filter_cache_is_authoritative_and_built_once() {
    let mut meta = skeleton_meta("g");
    meta.filter = is_status("active");
    meta.ensure_core_filters();
    let active = rec_status("active");
    let inactive = rec_status("inactive");
    assert!(matches(&active, &meta));
    assert!(!matches(&inactive, &meta));
    meta.filter = is_status("inactive");
    meta.ensure_core_filters();
    assert!(
        matches(&active, &meta),
        "membership must read the memoised cache, never reconvert AST per write (P2-2)"
    );
    assert!(!matches(&inactive, &meta));
}

#[test]
fn shard_path_is_read_your_write() {
    let mut mgr = GhostLobeManager::new();
    mgr.insert_ghost(skeleton_meta("g"));
    mgr.with_ghost_mut("g", |m: GhostMeta| {
        let mut m = m;
        m.index_count = 42;
        (m, ())
    });
    let seen = mgr.with_ghost("g", |m: &GhostMeta| m.index_count);
    assert_eq!(seen, Some(42), "a write must be visible on the next read");
}

#[test]
fn a_ghost_that_aggregates_counts_its_states() {
    let mut mgr = GhostLobeManager::new();
    let mut plain = skeleton_meta("plain");
    assert!(!plain.is_aggregate());
    plain.aggregate = None;
    mgr.insert_ghost(plain);
    let mut groups = SortedMap::new();
    groups.insert("a".to_string(), AggregateState::default());
    groups.insert("b".to_string(), AggregateState::default());
    let mut grouped = skeleton_meta("grouped");
    grouped.aggregate = Some(AggregateContent {
        aggregate_specs: vec![],
        global_aggregates: AggregateState::default(),
        grouping: Grouping::from_fields(vec!["city".to_string()]),
        residency: Residency::InRam(groups),
    });
    assert!(grouped.is_aggregate());
    mgr.insert_ghost(grouped);
    let ten = |_: &AggregateState| 10usize;
    // One state for the whole; for each group an entry, its key and its state.
    assert_eq!(mgr.aggregate_state_bytes(&ten), 10 + 2 * (32 + 24 + 1 + 10));
}

#[test]
fn bulk_mode_is_remembered() {
    let mut mgr = GhostLobeManager::new();
    assert!(!mgr.bulk_mode());
    mgr.set_bulk_mode(true);
    assert!(mgr.bulk_mode());
    mgr.set_bulk_mode(false);
    assert!(!mgr.bulk_mode());
}

#[test]
fn the_filter_of_a_ghost_is_told() {
    let mut mgr = GhostLobeManager::new();
    let mut m = skeleton_meta("g");
    m.filter = FilterExpr::Condition(Filter {
        field: "city".to_string(),
        op: AstOp::Eq,
        value: Literal::Text("Oslo".to_string()),
    });
    mgr.insert_ghost(m);
    assert!(matches!(
        mgr.get_filter("g"),
        Ok(FilterExpr::Condition(f)) if f.field == "city" && f.op == AstOp::Eq
    ));
    assert_eq!(
        mgr.get_filter("h").err(),
        Some(XyzError::GhostNotFound("h".to_string()))
    );
}

#[test]
fn room_is_made_before_a_ghost_is_created() {
    let mut mgr = GhostLobeManager::new();
    mgr.insert_ghost(ephemeral_with("g1", "data", 100));
    mgr.insert_ghost(ephemeral_with("g2", "data", 50));
    assert!(mgr.evict_lru_at_limit("data", GhostType::Ephemeral, 3).is_none());
    let (_, gone) = mgr.evict_lru_at_limit("data", GhostType::Ephemeral, 2).unwrap();
    assert_eq!(gone.name, "g2");
    assert_eq!(mgr.count_by_type("data", GhostType::Ephemeral), 1);
    mgr.insert_ghost(ephemeral_with("g3", "data", 200));
    assert_eq!(mgr.count_by_type("data", GhostType::Ephemeral), 2);
}

#[test]
fn a_promotion_that_cannot_be_persisted_changes_nothing() {
    let mut mgr = GhostLobeManager::new();
    let mut m = ephemeral_with("auto_x", "data", 100);
    m.telemetry_mut().unwrap().daily_access_bitmap = 0x7F;
    mgr.insert_ghost(m);
    let refused = mgr.promote_ghost("auto_x", |m: &GhostMeta| {
        assert_eq!(m.name, "promoted_x");
        assert_eq!(m.ghost_type(), GhostType::Promoted);
        Err(XyzError::Storage("full".to_string()))
    });
    assert_eq!(refused, Err(XyzError::Storage("full".to_string())));
    assert!(!mgr.contains_ghost("promoted_x"));
    let kind = mgr.with_ghost("auto_x", |m: &GhostMeta| {
        (m.name.clone(), m.ghost_type(), m.ttl_seconds(), bitmap_of(m))
    });
    assert_eq!(
        kind,
        Some(("auto_x".to_string(), GhostType::Ephemeral, Some(86_400), 0x7F))
    );
    assert_eq!(mgr.identify_promotable(), vec!["auto_x".to_string()]);
}

#[test]
fn a_promoted_ghost_is_not_promoted_again() {
    let mut mgr = GhostLobeManager::new();
    let mut m = ephemeral_with("auto_x", "data", 100);
    m.telemetry_mut().unwrap().daily_access_bitmap = 0x7F;
    mgr.insert_ghost(m);
    assert_eq!(mgr.promote_ghost("auto_x", |_: &GhostMeta| Ok(())).unwrap(), "promoted_x");
    assert_eq!(mgr.ghost_id("promoted_x"), Some(1));
    assert!(mgr.identify_promotable().is_empty());
    assert!(mgr.promote_ghost("promoted_x", |_: &GhostMeta| Ok(())).is_err());
}
