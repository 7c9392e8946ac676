use xyzdb_engine::canon::{compute_gravity_hash, Canon};
use xyzdb_engine::error::XyzError;
use xyzdb_engine::find::FindTarget;
use xyzdb_engine::pull::{
    is_collision_victim, is_pulled, pull_depth, pull_target, source_canon, source_key, Entity, PulledEntities,
};
use xyzdb_engine::record::{Fields, Record};
use xyzdb_engine::value::Value;

fn fnv(s: &str) -> u64 {
    let mut h: u64 = 0xcbf2_9ce4_8422_2325;
    for b in s.bytes() {
        h = (h ^ b as u64).wrapping_mul(0x0000_0100_0000_01b3);
    }
    h & 0xFFFF_FFFF_FFFF
}

fn show(v: &Value) -> String {
    match v {
        Value::Text(s) => s.clone(),
        Value::Int(n) => n.to_string(),
        _ => "?".to_string(),
    }
}

fn canon() -> Canon<fn(&str) -> u64, fn(&Value) -> String> {
    Canon { hash: fnv, render: show }
}

fn rec_with(field: &str, value: &str) -> Record {
    let mut fields = Fields::new();
    fields.insert(field.to_string(), Value::Text(value.to_string()));
    Record { lid: 1, lobe_name: "l".to_string(), fields, created_at: 0, updated_at: 0 }
}

fn bucket(value: &str) -> u64 {
    compute_gravity_hash(&canon(), &[("key".to_string(), Value::Text(value.to_string()))])
}

#[test]
fn detects_value_whose_own_hash_owns_the_bucket() {
    let rec = rec_with("key", "K2");
    assert!(is_collision_victim(&canon(), &rec, Some("key"), Some("K1"), bucket("K2")));
}

#[test]
fn keeps_same_value_members_and_link_overrides() {
    let k1 = bucket("K1");
    // The same value is a member.
    assert!(!is_collision_victim(&canon(), &rec_with("key", "K1"), Some("key"), Some("K1"), k1));
    // Another value whose own hash points elsewhere was placed here by a link.
    assert!(!is_collision_victim(&canon(), &rec_with("key", "K2"), Some("key"), Some("K1"), k1));
    // Without the gravity field there is nothing to tell.
    assert!(!is_collision_victim(&canon(), &rec_with("other", "x"), Some("key"), Some("K1"), k1));
    assert!(!is_collision_victim(&canon(), &rec_with("key", "K2"), None, Some("K1"), k1));
    assert!(!is_collision_victim(&canon(), &rec_with("key", "K2"), Some("key"), None, k1));
}

#[test]
fn only_records_of_the_type_are_pulled() {
    let k1 = bucket("K1");
    let mut rec = rec_with("key", "K1");
    rec.fields.insert("_type".to_string(), Value::Text("Credit".to_string()));
    assert!(is_pulled(&canon(), &rec, Some("key"), Some("K1"), k1, None));
    assert!(is_pulled(&canon(), &rec, Some("key"), Some("K1"), k1, Some("Credit")));
    assert!(!is_pulled(&canon(), &rec, Some("key"), Some("K1"), k1, Some("Other")));
}

#[test]
fn an_entity_is_pulled_once() {
    let mut seen = PulledEntities::new();
    let e = |c: Option<&str>| Entity { lobe_id: 1, hash: 2, canon: c.map(|s| s.to_string()) };
    assert!(seen.insert(e(Some("K1"))));
    assert!(!seen.insert(e(Some("K1"))));
    assert!(seen.insert(e(Some("K2"))));
    assert!(seen.insert(e(None)));
}

#[test]
fn the_source_has_a_depth_a_key_and_a_value() {
    assert_eq!(pull_depth(0), 0);
    assert!(pull_depth(1_000_000) <= 1_000_000);
    assert_eq!(source_key(None), None);
    assert_eq!(source_key(Some(&vec![0u8; 22])), Some(vec![0u8; 22]));
    assert_eq!(source_key(Some(&vec![0u8; 5])), None);
    assert_eq!(
        source_canon(&canon(), &rec_with("key", "K1"), Some("key")),
        Some("K1".to_string())
    );
    assert_eq!(source_canon(&canon(), &rec_with("key", "K1"), None), None);
}

#[test]
fn a_pull_has_something_to_pull_from() {
    let lobe = FindTarget::Lobe("l".to_string());
    assert!(pull_target(Some(&lobe)).is_ok());
    assert_eq!(
        pull_target(None).err(),
        Some(XyzError::InvalidQuery("PULL requires a target or pipeline".to_string()))
    );
}
