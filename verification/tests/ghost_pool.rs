use xyzdb_engine::aggregate_state::AggOp;
use xyzdb_engine::ast::{Filter, FilterExpr, FilterOp, Literal};
use xyzdb_engine::error::XyzError;
use xyzdb_engine::ghost_meta::{AccessTelemetry, AutoClass, GhostLifecycle, GhostMeta, GhostType};
use xyzdb_engine::ghost_pool::{
    auto_metrics, candidate_spec, execute_ghost_job, BuildCounters, GhostCreatorPool, Inflight,
    SingleflightGuard,
};
use xyzdb_engine::ghost_router::GhostRouter;
use xyzdb_engine::ghost_store::GhostLobeManager;
use xyzdb_engine::scan_telemetry::AutoGhostCandidate;

#[test]
fn pool_creates_n_workers() {
    let pool = GhostCreatorPool::new(2);
    assert_eq!(pool.worker_count(), 2);
    assert_eq!(pool.capacity(), 8);
}

#[test]
fn pool_clamps_zero_workers_to_one() {
    let pool = GhostCreatorPool::new(0);
    assert_eq!(pool.worker_count(), 1);
}

#[test]
fn default_size_is_at_least_one() {
    for cpus in [None, Some(0), Some(1), Some(2), Some(6), Some(7), Some(64)] {
        let n = GhostCreatorPool::default_size(cpus);
        assert!((1..=4).contains(&n));
    }
    assert_eq!(GhostCreatorPool::default_size(None), 1);
    assert_eq!(GhostCreatorPool::default_size(Some(6)), 3);
    assert_eq!(GhostCreatorPool::default_size(Some(64)), 4);
}

#[test]
fn singleflight_guard_drop_removes_hash() {
    let mut inflight = Inflight::new();
    let hash = 0xdead_beef_dead_beef_u64;
    inflight.insert(hash);
    assert!(inflight.contains(hash));

    let guard = SingleflightGuard::new(hash);
    guard.release(&mut inflight);
    assert!(!inflight.contains(hash));
}

#[test]
fn singleflight_guard_distinct_hashes_independent() {
    let mut inflight = Inflight::new();
    let h1 = 1u64;
    let h2 = 2u64;
    inflight.insert(h1);
    inflight.insert(h2);

    let guard1 = SingleflightGuard::new(h1);
    guard1.release(&mut inflight);

    assert!(!inflight.contains(h1));
    assert!(inflight.contains(h2), "h2 untouched by h1's guard drop");
}

#[test]
fn a_pattern_is_built_once_at_a_time() {
    let mut inflight = Inflight::new();
    let guard = inflight.enter(7).unwrap();
    assert!(inflight.enter(7).is_none());
    guard.release(&mut inflight);
    assert!(inflight.enter(7).is_some());
}

fn candidate(fields: Vec<String>) -> AutoGhostCandidate {
    AutoGhostCandidate {
        lobe: "data".to_string(),
        filters: vec![Filter {
            field: "status".to_string(),
            op: FilterOp::Eq,
            value: Literal::Text("active".to_string()),
        }],
        filter_desc: "status=active".to_string(),
        aggregate_fields: fields,
    }
}

fn meta(name: &str) -> GhostMeta {
    GhostMeta {
        name: name.to_string(),
        ghost_id: 1,
        version: 2,
        lobe_id: 1,
        source_lobe: "data".to_string(),
        filter: FilterExpr::And(vec![]),
        order_by_field: String::new(),
        sort_inverted: false,
        metric_order: None,
        order_emitted_at: None,
        state: 1,
        index_count: 0,
        aggregate: None,
        projection: vec![],
        created_at: 0,
        last_accessed: 0,
        incremental_updates: 0,
        lifecycle: GhostLifecycle::Declared,
        core_filters_cache: None,
        maintenance_degraded: false,
    }
}

#[test]
fn metrics_are_a_count_and_a_sum_for_each_field() {
    assert_eq!(auto_metrics(&[]).len(), 0);
    let m = auto_metrics(&["a".to_string(), "b".to_string()]);
    assert_eq!(m.len(), 3);
    assert_eq!(m[0].op, AggOp::Count);
    assert_eq!(m[0].label, "count");
    assert_eq!(m[2].op, AggOp::Sum);
    assert_eq!(m[2].field, "b");
    assert_eq!(m[2].label, "sum(b)");
}

#[test]
fn a_candidate_has_neither_order_nor_groups() {
    let spec = candidate_spec(&candidate(vec!["m".to_string()]), "auto_1");
    assert_eq!(spec.name, "auto_1");
    assert!(spec.is_auto);
    assert_eq!(spec.order_by_field, "");
    assert_eq!(spec.group_fields.len(), 0);
    assert_eq!(spec.aggregate_specs.len(), 2);
    assert!(matches!(spec.filter, FilterExpr::And(ref v) if v.len() == 1));
}

#[test]
fn a_created_ghost_becomes_ephemeral_and_is_routed_to() {
    let mut manager = GhostLobeManager::new();
    manager.insert_ghost(meta("auto_1"));
    let mut router = GhostRouter::new();
    let mut counters = BuildCounters { dedup_lost: 0, create_failed_other: 0 };
    let persist = execute_ghost_job(
        &mut manager,
        &mut router,
        &mut counters,
        "auto_1",
        &candidate(vec![]),
        &Ok("created".to_string()),
    );
    assert!(persist);
    let kind = manager.with_ghost("auto_1", |m: &GhostMeta| (m.ghost_type(), m.ttl_seconds()));
    assert_eq!(kind, Some((GhostType::Ephemeral, Some(86_400))));
    assert!(router.has_ghosts());
    assert_eq!(router.get_filter_desc("auto_1"), Some("status=active"));
    assert_eq!(counters, BuildCounters { dedup_lost: 0, create_failed_other: 0 });
}

#[test]
fn builds_that_come_to_nothing_are_counted() {
    let mut manager = GhostLobeManager::new();
    let mut router = GhostRouter::new();
    let mut counters = BuildCounters { dedup_lost: 0, create_failed_other: 0 };
    let lost = Err(XyzError::GhostExists("auto_1".to_string()));
    assert!(!execute_ghost_job(
        &mut manager,
        &mut router,
        &mut counters,
        "auto_1",
        &candidate(vec![]),
        &lost
    ));
    let failed = Err(XyzError::Storage("disk".to_string()));
    assert!(!execute_ghost_job(
        &mut manager,
        &mut router,
        &mut counters,
        "auto_1",
        &candidate(vec![]),
        &failed
    ));
    assert_eq!(counters, BuildCounters { dedup_lost: 1, create_failed_other: 1 });
    assert!(!router.has_ghosts());
}

#[test]
fn the_ghost_used_longest_ago_makes_room() {
    let mut manager = GhostLobeManager::new();
    for (name, id, used) in [("auto_a", 1u16, 300i64), ("auto_b", 2, 100), ("auto_c", 3, 200)] {
        let mut m = meta(name);
        m.ghost_id = id;
        m.last_accessed = used;
        m.lifecycle = GhostLifecycle::Auto {
            class: AutoClass::Ephemeral,
            ttl_seconds: 86_400,
            telemetry: AccessTelemetry::default(),
        };
        manager.insert_ghost(m);
    }
    assert!(manager.evict_lru_at_limit("data", GhostType::Ephemeral, 4).is_none());
    let (id, ghost) = manager.evict_lru_at_limit("data", GhostType::Ephemeral, 3).unwrap();
    assert_eq!(id, 2);
    assert_eq!(ghost.name, "auto_b");
    assert_eq!(ghost.lobe_id, 1);
    assert_eq!(manager.ghost_count(), 2);
    assert!(manager.evict_lru_at_limit("other", GhostType::Ephemeral, 0).is_none());
}

#[test]
fn expired_ghosts_are_dropped() {
    let mut manager = GhostLobeManager::new();
    let mut stale = meta("auto_old");
    stale.ghost_id = 9;
    stale.lifecycle = GhostLifecycle::Auto {
        class: AutoClass::Ephemeral,
        ttl_seconds: 1,
        telemetry: AccessTelemetry::default(),
    };
    manager.insert_ghost(stale);
    manager.insert_ghost(meta("kept"));
    let dropped = manager.drop_expired_ghosts(2_000_000);
    assert_eq!(dropped.len(), 1);
    assert_eq!(dropped[0].0, 9);
    assert_eq!(dropped[0].1.name, "auto_old");
    assert_eq!(manager.ghost_names(), vec!["kept".to_string()]);
}
