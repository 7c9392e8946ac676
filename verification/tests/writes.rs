use std::collections::BTreeMap;

use xyzdb_engine::ast::Literal;
use xyzdb_engine::canon::Canon;
use xyzdb_engine::delete::{delete_summary, live_key, need_target};
use xyzdb_engine::error::XyzError;
use xyzdb_engine::find::LiteralText;
use xyzdb_engine::gravity_spec::GravitySpec;
use xyzdb_engine::layout::{key_lobe, key_satellite, stored_key, Layout, Place};
use xyzdb_engine::link::{link_ends, link_writes};
use xyzdb_engine::placement::{
    begin_put, build_fields, check_markers, field_to_register, inject_type, Placer, PutField,
};
use xyzdb_engine::put::{
    bulk_result, hoisted_dims, merge_fields, update_writes, writes_save_due, BatchStart,
    BulkRecord, PutBatch, PutOutcome, RecordSeq, Stamp, Writer,
};
use xyzdb_engine::record::{Fields, FilterOp, Record};
use xyzdb_engine::satellite_spec::{SatelliteAxis, SatelliteSpec};
use xyzdb_engine::set::{assign, check_assignments, set_summary, LobeAnchors};
use xyzdb_engine::value::{values_equal, Value};
use xyzdb_engine::write_ops::{EncodedRecord, WriteOp};

fn fnv(s: &str) -> u64 {
    let mut h: u64 = 0xcbf2_9ce4_8422_2325;
    for b in s.bytes() {
        h = (h ^ b as u64).wrapping_mul(0x0000_0100_0000_01b3);
    }
    h & 0xFFFF_FFFF_FFFF
}

fn show(v: &Value) -> String {
    match v {
        Value::Text(s) => s.clone(),
        Value::Int(n) => n.to_string(),
        Value::Null => "null".to_string(),
        _ => "?".to_string(),
    }
}

fn content(f: &Fields) -> String {
    let mut s = String::new();
    for i in 0..f.len() {
        s.push_str(f.name_at(i));
        s.push_str(&show(f.value_at(i)));
    }
    s
}

fn dictionary_key(lobe: u16, name: &str, value: &str) -> Vec<u8> {
    let mut k = vec![0xFD];
    k.extend_from_slice(&lobe.to_be_bytes());
    k.extend_from_slice(name.as_bytes());
    k.push(0);
    k.extend_from_slice(value.as_bytes());
    k
}

fn spatial_key(p: Place) -> Vec<u8> {
    let mut k = p.lobe_id.to_be_bytes().to_vec();
    k.extend_from_slice(&p.gravity_hash.to_be_bytes()[2..]);
    k.extend_from_slice(&p.satellite.unwrap_or(0).to_be_bytes());
    k.extend_from_slice(&p.type_id.to_be_bytes());
    k.extend_from_slice(&p.micros.to_be_bytes());
    k.extend_from_slice(&(p.seq as u16).to_be_bytes());
    k
}

fn gravity_hash(k: &[u8]) -> u64 {
    let mut b = [0u8; 8];
    b[2..].copy_from_slice(&k[2..8]);
    u64::from_be_bytes(b)
}

fn lid_bytes(l: u128) -> Vec<u8> {
    l.to_be_bytes().to_vec()
}

fn lid_from(b: &[u8]) -> u128 {
    let mut a = [0u8; 16];
    for (i, x) in b.iter().take(16).enumerate() {
        a[i] = *x;
    }
    u128::from_be_bytes(a)
}

fn lid_text(l: u128) -> String {
    format!("L{l}")
}

type TestWriter = Writer<
    fn(&str) -> u64,
    fn(&Value) -> String,
    fn(&Fields) -> String,
    fn(u16, &str, &str) -> Vec<u8>,
    fn(Place) -> Vec<u8>,
    fn(&[u8]) -> u64,
    fn(u128) -> Vec<u8>,
    fn(&[u8]) -> u128,
    fn(u128) -> String,
>;

fn writer() -> TestWriter {
    Writer {
        placer: Placer { canon: Canon { hash: fnv, render: show }, content },
        layout: Layout { dictionary_key, spatial_key, gravity_hash, lid_bytes, lid_from, lid_text },
    }
}

fn text(s: &str) -> Value {
    Value::Text(s.to_string())
}

fn fields(pairs: Vec<(&str, Value)>) -> Fields {
    let mut f = Fields::new();
    for (k, v) in pairs {
        f.insert(k.to_string(), v);
    }
    f
}

fn stamp(lid: u128) -> Stamp {
    Stamp { lobe_id: 1, lid, created_micros: 10, key_micros: 10, seq: 1 }
}

fn encoded() -> EncodedRecord {
    EncodedRecord { bytes: vec![1, 2, 3], column: None, registry: None }
}

fn is_text(f: &Fields, name: &str, s: &str) -> bool {
    matches!(f.get(name), Some(v) if values_equal(v, &text(s)))
}

/// The four keyspaces, as maps.
#[derive(Default, PartialEq, Debug)]
struct Store {
    spatial: BTreeMap<Vec<u8>, Vec<u8>>,
    identity: BTreeMap<Vec<u8>, Vec<u8>>,
    vectors: BTreeMap<Vec<u8>, Vec<u8>>,
    dictionary: BTreeMap<Vec<u8>, Vec<u8>>,
}

impl Store {
    fn apply(&mut self, ops: Vec<WriteOp>) {
        for op in ops {
            match op {
                WriteOp::PutSpatial(k, v) => {
                    self.spatial.insert(k, v);
                }
                WriteOp::PutIdentity(k, v) => {
                    self.identity.insert(k, v);
                }
                WriteOp::PutVectors(k, v) => {
                    self.vectors.insert(k, v);
                }
                WriteOp::PutDictionary(k, v) => {
                    self.dictionary.insert(k, v);
                }
                WriteOp::RemoveSpatial(k) => {
                    self.spatial.remove(&k);
                }
                WriteOp::RemoveIdentity(k) => {
                    self.identity.remove(&k);
                }
                WriteOp::RemoveVectors(k) => {
                    self.vectors.remove(&k);
                }
                WriteOp::RemoveDictionary(k) => {
                    self.dictionary.remove(&k);
                }
            }
        }
    }
}

// ---------------------------------------------------------------------------
// Put
// ---------------------------------------------------------------------------
#[test]
fn put_and_delete_leave_no_gravity_dictionary_entries() {
    let w = writer();
    let mut store = Store::default();
    let mut drafts = Vec::new();
    for i in 0..20 {
        let (f, markers) = build_fields(
            "creditos",
            &[
                PutField {
                    name: "_type".to_string(),
                    value: Literal::Text("Credit".to_string()),
                    gravity: false,
                },
                PutField {
                    name: "cliente_id".to_string(),
                    value: Literal::Text(format!("C{i}")),
                    gravity: true,
                },
                PutField { name: "n".to_string(), value: Literal::Int(i), gravity: false },
            ],
        );
        let found: Vec<Option<Vec<u8>>> = vec![];
        match w
            .execute_put(stamp(i as u128), "creditos", f, &markers, &[], &found, false, None, None, &no_axis())
            .unwrap()
        {
            PutOutcome::Insert(d) => {
                store.apply(w.insert_writes(&d, &encoded()));
                drafts.push(d);
            }
            PutOutcome::Update(_) => panic!("nothing to update"),
        }
    }
    assert_eq!(store.spatial.len(), 20);
    let d = &drafts[7];
    store.apply(w.build_delete_ops(Some(1), &[], &d.record, &d.spatial_key));
    assert_eq!(store.spatial.len(), 19);
    assert_eq!(store.identity.len(), 19);
    assert!(
        store.dictionary.keys().all(|k| k.first() != Some(&0xFE)),
        "no 0xFE gravity entries may exist in the dictionary keyspace"
    );
}

#[test]
fn an_inserted_record_is_found_by_its_anchor_and_identity() {
    let w = writer();
    let anchors = vec!["key".to_string()];
    let f = fields(vec![("key", text("K1")), ("data", text("v"))]);
    let keys = w.anchor_keys(1, &anchors, &f);
    assert_eq!(keys.len(), 1);
    assert_eq!(keys[0].value, "K1");
    let found: Vec<Option<Vec<u8>>> = vec![None];
    let out = w
        .execute_put(stamp(5), "items", f, &[], &anchors, &found, false, None, None, &no_axis())
        .unwrap();
    let PutOutcome::Insert(d) = out else {
        panic!("a new record is inserted")
    };
    assert_eq!(d.placed.hash, fnv("K1"));
    let mut store = Store::default();
    store.apply(w.insert_writes(&d, &encoded()));
    let lid = store.dictionary.get(&dictionary_key(1, "key", "K1")).unwrap();
    assert_eq!(lid_from(lid), 5);
    let key = store.identity.get(lid).unwrap();
    assert_eq!(store.spatial.get(key), Some(&vec![1, 2, 3]));
    assert_eq!(key_lobe(key), 1);
    assert_eq!(gravity_hash(key), fnv("K1"));
    store.apply(w.build_delete_ops(Some(1), &anchors, &d.record, &d.spatial_key));
    assert_eq!(store, Store::default());
}

#[test]
fn a_taken_anchor_is_refused_or_updated() {
    let w = writer();
    let anchors = vec!["key".to_string()];
    let taken: Vec<Option<Vec<u8>>> = vec![Some(lid_bytes(77))];
    let f = || fields(vec![("key", text("K1"))]);
    let refused = w.execute_put(stamp(5), "items", f(), &[], &anchors, &taken, false, None, None, &no_axis());
    assert!(matches!(
        refused,
        Err(XyzError::DuplicateAnchor { anchor, value, lobe, existing_lid })
            if anchor == "key" && value == "K1" && lobe == "items" && existing_lid == "L77"
    ));
    let updated = w.execute_put(stamp(5), "items", f(), &[], &anchors, &taken, true, None, None, &no_axis());
    assert!(matches!(updated, Ok(PutOutcome::Update(77))));
}

#[test]
fn records_are_placed_by_link_specification_mark_or_anchor() {
    let w = writer();
    let f = fields(vec![("a", text("x")), ("b", text("y"))]);
    let raw = GravitySpec::Raw("b".to_string());
    let mark = vec![("a".to_string(), text("x"))];
    let anchors = vec!["b".to_string()];
    let place = |link, spec, marks: &[(String, Value)], anchors: &[String]| {
        w.placer.place(link, spec, marks, anchors, &f)
    };
    assert_eq!(place(Some(9), Some(&raw), &mark, &anchors).hash, 9);
    assert_eq!(place(None, Some(&raw), &mark, &anchors).hash, fnv("y"));
    assert_eq!(place(None, Some(&raw), &mark, &anchors).keel, Some(true));
    assert_eq!(place(None, None, &mark, &anchors).hash, fnv("x"));
    assert_eq!(place(None, None, &[], &anchors).hash, fnv("y"));
    assert_eq!(place(None, None, &[], &[]).hash, fnv("axby"));
    let missing = GravitySpec::Raw("c".to_string());
    assert_eq!(place(None, Some(&missing), &[], &anchors).keel, Some(false));
}

#[test]
fn several_marks_need_a_declaration() {
    let marks = vec![("a".to_string(), text("x")), ("b".to_string(), text("y"))];
    let err = check_markers("l", &marks, None).unwrap_err();
    assert!(format!("{err:?}").contains("record marks multiple gravity fields (a, b) in lobe 'l'"));
    let spec = GravitySpec::Composite(vec!["a".to_string(), "b".to_string()]);
    assert!(check_markers("l", &marks, Some(&spec)).is_ok());
    assert!(check_markers("l", &marks[..1], None).is_ok());
    assert_eq!(field_to_register(&marks[..1]), Some("a".to_string()));
    assert_eq!(field_to_register(&[]), None);
}

#[test]
fn records_have_the_type_of_their_lobe_by_default() {
    assert!(is_text(&inject_type("l", fields(vec![])), "_type", "l"));
    assert!(is_text(&inject_type("l", fields(vec![("_type", text("T"))])), "_type", "T"));
    let w = writer();
    assert_eq!(
        w.placer.type_id_from_fields(&fields(vec![("_type", text("T"))])),
        (fnv("T") % 65536) as u16
    );
    assert_eq!(w.placer.type_id_from_fields(&fields(vec![])), 0);
}

#[test]
fn an_upsert_merges_fields() {
    let w = writer();
    let old = Record {
        lid: 3,
        lobe_name: "l".to_string(),
        fields: fields(vec![("a", text("1")), ("b", text("2"))]),
        created_at: 1,
        updated_at: 1,
    };
    let new = fields(vec![("b", text("3")), ("c", text("4"))]);
    let merged = w.execute_upsert(3, Some(&old), &new, 9).unwrap();
    assert!(is_text(&merged.fields, "a", "1"));
    assert!(is_text(&merged.fields, "b", "3"));
    assert!(is_text(&merged.fields, "c", "4"));
    assert_eq!(merged.updated_at, 9);
    assert_eq!(merged.created_at, 1);
    assert_eq!(merge_fields(&old, &new, 9).fields.len(), 3);
    assert!(w.execute_upsert(3, None, &new, 9).is_err());
    assert!(w.upsert_key(3, None).is_err());
    assert_eq!(w.upsert_key(3, Some(&vec![0u8; 22])), Ok(vec![0u8; 22]));
    assert!(matches!(w.upsert_key(3, Some(&vec![0u8; 3])), Err(XyzError::Internal(_))));
    assert_eq!(update_writes(&vec![7u8; 22], &encoded()).len(), 1);
    assert_eq!(w.inserted_message(3), "1 record inserted (LID: L3)");
    assert_eq!(w.updated_message(3), "1 record updated (LID: L3)");
}

#[test]
fn columns_and_registry_entries_are_written_with_the_record() {
    let w = writer();
    let found: Vec<Option<Vec<u8>>> = vec![];
    let out = w
        .execute_put(stamp(1), "l", fields(vec![]), &[], &[], &found, false, None, None, &no_axis())
        .unwrap();
    let PutOutcome::Insert(d) = out else { panic!("inserted") };
    let e = EncodedRecord {
        bytes: vec![1],
        column: Some(vec![2]),
        registry: Some((vec![3], vec![4])),
    };
    let ops = w.insert_writes(&d, &e);
    assert_eq!(ops.len(), 4);
    assert_eq!(ops[2], WriteOp::PutVectors(d.spatial_key.clone(), vec![2]));
    assert_eq!(ops[3], WriteOp::PutDictionary(vec![3], vec![4]));
    let v = fields(vec![("emb", Value::Vector(vec![0; 5]))]);
    assert_eq!(hoisted_dims(Some("emb"), &v), Some(5));
    assert_eq!(hoisted_dims(Some("other"), &v), None);
    assert_eq!(hoisted_dims(None, &v), None);
}

#[test]
fn links_place_beside_their_target() {
    let w = writer();
    let key = spatial_key(Place {
        lobe_id: 1,
        gravity_hash: 4242,
        satellite: None,
        type_id: 0,
        micros: 0,
        seq: 0,
    });
    assert_eq!(w.resolve_gravity_hash_from_link(Some(&key)), Ok(4242));
    assert_eq!(
        w.resolve_gravity_hash_from_link(None),
        Err(XyzError::RecordNotFound("LINK target not found".to_string()))
    );
}

#[test]
fn record_numbers_count_up() {
    let mut s = RecordSeq::new();
    let a = s.next_record_seq();
    let b = s.next_record_seq();
    assert_ne!(a, b);
}

// ---------------------------------------------------------------------------
// Batches
// ---------------------------------------------------------------------------
fn begin(n: usize) -> PutBatch {
    match PutBatch::begin(n).unwrap() {
        BatchStart::Ready(b) => b,
        BatchStart::Empty(_) => panic!("not empty"),
    }
}

#[test]
fn a_batch_is_neither_empty_nor_too_large() {
    assert!(matches!(
        PutBatch::begin(0),
        Ok(BatchStart::Empty(m)) if m == "0 records inserted (empty batch)"
    ));
    assert!(matches!(
        PutBatch::begin(10_001),
        Err(XyzError::InvalidQuery(m)) if m == "Batch too large: 10001 records (max 10000)"
    ));
    assert!(matches!(PutBatch::begin(10_000), Ok(BatchStart::Ready(_))));
}

#[test]
fn a_batch_refuses_an_anchor_that_occurs_twice() {
    let w = writer();
    let anchors = vec!["key".to_string()];
    let f = || fields(vec![("key", text("K1"))]);
    let mut batch = begin(2);
    let d = w
        .draft_in_batch(
            &mut batch,
            stamp(1),
            "items",
            f(),
            &[],
            &anchors,
            &vec![false],
            false,
            None,
            None,
            &no_axis(),
        )
        .unwrap()
        .unwrap();
    batch.push(1, w.insert_writes(&d, &encoded()));
    let again = w.draft_in_batch(
        &mut batch,
        stamp(2),
        "items",
        f(),
        &[],
        &anchors,
        &vec![false],
        false,
        None,
        None,
        &no_axis(),
    );
    assert!(matches!(
        again,
        Err(XyzError::DuplicateAnchor { existing_lid, .. }) if existing_lid == "batch"
    ));
    assert_eq!(batch.next_micros(100), 101);
    let (ops, result) = batch.finish();
    assert_eq!(ops.len(), 3);
    assert_eq!(result.count, 2);
    assert_eq!(result.first_lid, 1);
    assert_eq!(result.last_lid, 1);
}

#[test]
fn bulk_records_are_placed_by_their_gravity_fields() {
    let w = writer();
    let rec = BulkRecord {
        fields: fields(vec![("g", text("x"))]),
        gravity_fields: vec![("g".to_string(), text("x"))],
    };
    let d = w.draft_in_bulk(stamp(4), "l", rec, None, &no_axis()).unwrap();
    assert_eq!(d.placed.hash, fnv("x"));
    let mut b = PutBatch::unchecked(1);
    b.push(4, w.insert_writes(&d, &encoded()));
    let (_, result) = b.finish();
    let r = bulk_result(result);
    assert_eq!((r.count, r.first_lid, r.last_lid), (1, 4, 4));
}

#[test]
fn the_write_count_is_saved_now_and_then() {
    assert!(writes_save_due(10_000, 1));
    assert!(!writes_save_due(10_001, 1));
    assert!(writes_save_due(20_003, 5));
    assert!(!writes_save_due(9_999, 5));
}

// ---------------------------------------------------------------------------
// Delete
// ---------------------------------------------------------------------------
#[test]
fn delete_removes_index_before_data() {
    let w = writer();
    let rec = Record {
        lid: 1,
        lobe_name: "items".to_string(),
        fields: fields(vec![("key", text("K1")), ("data", text("v"))]),
        created_at: 0,
        updated_at: 0,
    };
    let sk = vec![0u8; 22];
    let ops = w.build_delete_ops(Some(1), &["key".to_string()], &rec, &sk);
    let spatial_idx = ops
        .iter()
        .position(|o| matches!(o, WriteOp::RemoveSpatial(_)))
        .expect("a data removal");
    assert_eq!(
        spatial_idx,
        ops.len() - 1,
        "the data (spatial) removal must be the final op"
    );
    let dict_count = ops
        .iter()
        .filter(|o| matches!(o, WriteOp::RemoveDictionary(_)))
        .count();
    assert!(
        dict_count >= 1,
        "an anchored record must remove its anchor index"
    );
    for (i, o) in ops.iter().enumerate() {
        match o {
            WriteOp::RemoveDictionary(_)
            | WriteOp::RemoveIdentity(_)
            | WriteOp::RemoveVectors(_) => assert!(
                i < spatial_idx,
                "pointer/column removal at {i} must precede the data removal at {spatial_idx}"
            ),
            WriteOp::RemoveSpatial(_) => {}
            _ => panic!("a delete only removes"),
        }
    }
}

#[test]
fn deletes_are_told() {
    assert_eq!(delete_summary(&vec![]), (None, "0 records deleted".to_string()));
    let r = Record {
        lid: 9,
        lobe_name: "l".to_string(),
        fields: fields(vec![]),
        created_at: 0,
        updated_at: 0,
    };
    assert_eq!(delete_summary(&vec![r]).0, Some(9));
    assert_eq!(need_target(true, "p", 5), Ok(5));
    assert_eq!(need_target(false, "p", 5), Err(XyzError::InvalidQuery("p".to_string())));
    assert_eq!(live_key(None), Ok(None));
    assert_eq!(live_key(Some(&vec![1u8; 22])), Ok(Some(vec![1u8; 22])));
    assert!(live_key(Some(&vec![1u8; 4])).is_err());
    assert!(stored_key(&[1, 2], "p").is_err());
}

// ---------------------------------------------------------------------------
// Set
// ---------------------------------------------------------------------------
fn record(lobe: &str, f: Fields) -> Record {
    Record { lid: 6, lobe_name: lobe.to_string(), fields: f, created_at: 1, updated_at: 1 }
}

#[test]
fn anchors_cannot_be_set() {
    let mut anchors = LobeAnchors::new();
    anchors.insert("items".to_string(), vec!["key".to_string()]);
    let records = vec![record("items", fields(vec![("key", text("K1"))]))];
    let to_key = vec![("key".to_string(), Literal::Int(1))];
    assert_eq!(
        check_assignments(&records, &to_key, &anchors),
        Err(XyzError::InvalidQuery(
            "cannot SET anchor field 'key' on lobe 'items': anchors are immutable identity"
                .to_string()
        ))
    );
    let to_data = vec![("data".to_string(), Literal::Int(1))];
    assert_eq!(check_assignments(&records, &to_data, &anchors), Ok(()));
    assert_eq!(set_summary(&records, 1), (Some(6), "1 record(s) updated".to_string()));
    assert_eq!(set_summary(&vec![], 0), (None, "0 records updated".to_string()));
}

/// No satellites.
fn no_axis() -> SatelliteAxis<fn(&Value) -> u16> {
    SatelliteAxis { spec: None, number: |_: &Value| 0 }
}

/// Every record with a value of `g` lies in the satellite.
fn axis(n: u16) -> SatelliteAxis<impl Fn(&Value) -> u16> {
    SatelliteAxis { spec: Some(SatelliteSpec::new("g")), number: move |_: &Value| n }
}

fn kind_number(v: &Value) -> u16 {
    match v {
        Value::Text(s) => s.len() as u16,
        _ => 0,
    }
}

#[test]
fn a_new_record_lies_in_the_satellite_that_is_searched_for_its_value() {
    let w = writer();
    let spec = GravitySpec::Raw("g".to_string());
    let axis = SatelliteAxis { spec: Some(SatelliteSpec::new("kind")), number: kind_number };
    let all = || fields(vec![("g", text("x")), ("kind", text("note"))]);
    let filters = [
        ("g".to_string(), FilterOp::Eq, text("x")),
        ("kind".to_string(), FilterOp::Eq, text("note")),
    ];
    assert_eq!(axis.pinned_satellite(&filters), Some(4));
    assert_eq!(axis.pinned_satellite(&filters[..1]), None);
    let out = w
        .execute_put(stamp(5), "l", all(), &[], &[], &vec![], false, None, Some(&spec), &axis)
        .unwrap();
    let PutOutcome::Insert(d) = out else {
        panic!("a new record is inserted")
    };
    assert_eq!(key_satellite(&d.spatial_key), 4);
    let mut batch = begin(1);
    let d = w
        .draft_in_batch(
            &mut batch,
            stamp(6),
            "l",
            all(),
            &[],
            &[],
            &vec![],
            false,
            None,
            Some(&spec),
            &axis,
        )
        .unwrap()
        .unwrap();
    assert_eq!(key_satellite(&d.spatial_key), 4);
    let rec = BulkRecord { fields: all(), gravity_fields: vec![] };
    let d = w.draft_in_bulk(stamp(7), "l", rec, Some(&spec), &axis).unwrap();
    assert_eq!(key_satellite(&d.spatial_key), 4);
    let unnamed = fields(vec![("g", text("x"))]);
    assert_eq!(axis.satellite_of(&unnamed), None);
    assert_eq!(axis.satellite_of(&all()), Some(4));
}

#[test]
fn a_changed_record_moves_with_its_gravity_field() {
    let w = writer();
    let spec = GravitySpec::Raw("g".to_string());
    let old = record("l", fields(vec![("g", text("x"))]));
    let key = spatial_key(Place {
        lobe_id: 3,
        gravity_hash: fnv("x"),
        satellite: Some(7),
        type_id: 0,
        micros: 1,
        seq: 1,
    });
    assert_eq!(key_satellite(&key), 7);
    let same = assign(&old, &vec![("n".to_string(), Literal::Int(1))], 9);
    assert_eq!(same.updated_at, 9);
    assert!(w.move_key(&key, Some(&spec), &[], &same.fields, &axis(7), 2, 2).is_none());
    let other = assign(&old, &vec![("g".to_string(), Literal::Text("y".to_string()))], 9);
    let moved = w.move_key(&key, Some(&spec), &[], &other.fields, &axis(7), 2, 2).unwrap();
    assert_eq!(gravity_hash(&moved), fnv("y"));
    assert_eq!(key_lobe(&moved), 3);
    let ops = w.change_writes(&key, Some(&moved), 6, &encoded());
    assert_eq!(ops[0], WriteOp::RemoveSpatial(key.clone()));
    assert_eq!(ops[2], WriteOp::PutIdentity(lid_bytes(6), moved));
    assert_eq!(w.change_writes(&key, None, 6, &encoded()).len(), 1);
    assert!(w.move_key(&key, Some(&spec), &[], &same.fields, &axis(8), 2, 2).is_some());
}

// ---------------------------------------------------------------------------
// Link
// ---------------------------------------------------------------------------
#[test]
fn a_link_names_its_target() {
    let w = writer();
    let rec = w.create_link_record(&record("l", fields(vec![])), "owner", 8, Some(5));
    assert!(is_text(&rec.fields, "_link_owner", "L8"));
    assert_eq!(rec.updated_at, 5);
    assert_eq!(w.link_message(6, 8, "owner"), "LINK created: L6 -> L8 as 'owner'");
    assert_eq!(link_ends(Some(1), Some(2)), Ok((1, 2)));
    assert_eq!(
        link_ends(None, Some(2)),
        Err(XyzError::RecordNotFound("LINK source not found".to_string()))
    );
    assert_eq!(
        link_ends(Some(1), None),
        Err(XyzError::RecordNotFound("LINK target not found".to_string()))
    );
    assert!(w.source_key(1, None).is_err());
    assert!(w.source_key(1, Some(&vec![0u8; 22])).is_ok());
    assert_eq!(link_writes(&vec![0u8; 22], &encoded()).len(), 1);
}

#[test]
fn a_put_is_read_before_it_is_written() {
    let mark = |name: &str, gravity: bool| PutField {
        name: name.to_string(),
        value: Literal::Text("v".to_string()),
        gravity,
    };
    let plan = begin_put("l", &[mark("a", true), mark("b", false)], None).unwrap();
    assert_eq!(plan.register.as_deref(), Some("a"));
    assert_eq!(plan.markers.len(), 1);
    assert!(is_text(&plan.fields, "b", "v"));
    assert!(is_text(&plan.fields, "_type", "l"));
    let two = [mark("a", true), mark("b", true)];
    assert!(begin_put("l", &two, None).is_err());
    let spec = GravitySpec::Composite(vec!["a".to_string(), "b".to_string()]);
    let plan = begin_put("l", &two, Some(&spec)).unwrap();
    assert_eq!(plan.register, None);
    assert_eq!(plan.markers.len(), 2);
}

#[test]
fn a_batch_skips_a_record_whose_anchor_is_stored() {
    let w = writer();
    let anchors = vec!["key".to_string()];
    let mut batch = begin(2);
    let skipped = w
        .draft_in_batch(
            &mut batch,
            stamp(7),
            "items",
            fields(vec![("key", text("K1"))]),
            &[],
            &anchors,
            &vec![true],
            true,
            None,
            None,
            &no_axis(),
        )
        .unwrap();
    assert!(skipped.is_none());
    // The next record still follows the skipped one in time.
    assert_eq!(batch.next_micros(100), 101);
    let d = w
        .draft_in_batch(
            &mut batch,
            stamp(8),
            "items",
            fields(vec![("key", text("K2"))]),
            &[],
            &anchors,
            &vec![false],
            true,
            None,
            None,
            &no_axis(),
        )
        .unwrap()
        .unwrap();
    batch.push(8, w.insert_writes(&d, &encoded()));
    let (ops, result) = batch.finish();
    let stored = dictionary_key(1, "key", "K1");
    assert!(ops.iter().all(|o| !matches!(o, WriteOp::PutDictionary(k, _) if *k == stored)));
    assert_eq!((result.first_lid, result.last_lid), (8, 8));
}

#[test]
fn anchors_are_removed_and_looked_up_by_the_key_they_were_written_by() {
    let w = writer();
    let lookup = LiteralText { render: |_: &Literal| "?".to_string() };
    let cases = [
        (text("K1"), Literal::Text("K1".to_string()), "K1"),
        (Value::Int(-7), Literal::Int(-7), "-7"),
        (Value::Bool(true), Literal::Bool(true), "true"),
        (Value::Bool(false), Literal::Bool(false), "false"),
    ];
    for (value, literal, expected) in cases {
        let key = dictionary_key(1, "key", expected);
        assert_eq!(lookup.literal_to_string(&literal), expected);
        assert_eq!(w.placer.canon.value_to_anchor_string(&value), expected);
        let d = w.draft(
            stamp(7),
            "items",
            fields(vec![("key", value.clone_value())]),
            w.placer.place(None, None, &[], &["key".to_string()], &fields(vec![])),
            w.anchor_keys(1, &["key".to_string()], &fields(vec![("key", value.clone_value())])),
            &no_axis(),
        );
        let writes = w.insert_writes(&d, &encoded());
        assert!(writes.iter().any(|o| matches!(o, WriteOp::PutDictionary(k, _) if *k == key)));
        let ops = w.build_delete_ops(Some(1), &["key".to_string()], &d.record, &d.spatial_key);
        assert!(matches!(&ops[0], WriteOp::RemoveDictionary(k) if *k == key));
    }
}
