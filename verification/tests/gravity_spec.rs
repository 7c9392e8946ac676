use xyzdb_engine::canon::{compute_gravity_hash, Canon};
use xyzdb_engine::gravity_spec::{GravitySpec, Transform};
use xyzdb_engine::record::{Fields, FilterOp};
use xyzdb_engine::text::is_white;
use xyzdb_engine::value::Value;

const MAGIC: [u8; 2] = [0x58, 0x5A];

fn hash_to_48bits(s: &str) -> u64 {
    let mut h: u64 = 0xcbf2_9ce4_8422_2325;
    for b in s.bytes() {
        h = (h ^ b as u64).wrapping_mul(0x0000_0100_0000_01b3);
    }
    h & 0xFFFF_FFFF_FFFF
}

fn show(v: &Value) -> String {
    match v {
        Value::Text(s) => s.clone(),
        Value::Int(n) => n.to_string(),
        Value::Bool(b) => b.to_string(),
        _ => "?".to_string(),
    }
}

fn canon() -> Canon<fn(&str) -> u64, fn(&Value) -> String> {
    Canon { hash: hash_to_48bits, render: show }
}

fn text(s: &str) -> Value {
    Value::Text(s.to_string())
}

fn fields(pairs: Vec<(&str, Value)>) -> Fields {
    let mut f = Fields::new();
    for (k, v) in pairs {
        f.insert(k.to_string(), v);
    }
    f
}

#[test]
fn raw_hash_is_value_only_canonical() {
    let f = fields(vec![("rfc", text("ABC123")), ("monto", Value::Int(50))]);
    let spec = GravitySpec::Raw("rfc".to_string());
    assert_eq!(spec.compute_hash(&canon(), &f), Some(hash_to_48bits("ABC123")));
    let canonical = compute_gravity_hash(&canon(), &[("rfc".to_string(), text("ABC123"))]);
    assert_eq!(spec.compute_hash(&canon(), &f), Some(canonical));
}

#[test]
fn raw_missing_field_returns_none() {
    let f = fields(vec![("monto", Value::Int(1))]);
    assert_eq!(GravitySpec::Raw("rfc".to_string()).compute_hash(&canon(), &f), None);
}

#[test]
fn normalized_lower_collapses_case() {
    let upper = fields(vec![("empresa", text("Acme"))]);
    let lower = fields(vec![("empresa", text("acme"))]);
    let spec = GravitySpec::Normalized("empresa".to_string(), Transform::Lower);
    assert_eq!(spec.compute_hash(&canon(), &upper), spec.compute_hash(&canon(), &lower));
    let raw = GravitySpec::Raw("empresa".to_string());
    assert_ne!(spec.compute_hash(&canon(), &upper), raw.compute_hash(&canon(), &upper));
}

#[test]
fn normalized_trim_strips_whitespace() {
    let padded = fields(vec![("k", text("  x  "))]);
    let clean = fields(vec![("k", text("x"))]);
    let spec = GravitySpec::Normalized("k".to_string(), Transform::Trim);
    assert_eq!(spec.compute_hash(&canon(), &padded), spec.compute_hash(&canon(), &clean));
    assert_eq!(spec.compute_hash(&canon(), &clean), Some(hash_to_48bits("x")));
}

#[test]
fn composite_folds_full_tuple_and_is_order_sensitive() {
    let f = fields(vec![("tenant", text("t1")), ("doc", text("d1"))]);
    let ab = GravitySpec::Composite(vec!["tenant".to_string(), "doc".to_string()]);
    let ba = GravitySpec::Composite(vec!["doc".to_string(), "tenant".to_string()]);
    assert_eq!(ab.compute_hash(&canon(), &f), Some(hash_to_48bits("t1\0d1")));
    let expected = compute_gravity_hash(
        &canon(),
        &[
            ("tenant".to_string(), text("t1")),
            ("doc".to_string(), text("d1")),
        ],
    );
    assert_eq!(ab.compute_hash(&canon(), &f), Some(expected));
    assert_ne!(
        ab.compute_hash(&canon(), &f),
        ba.compute_hash(&canon(), &f),
        "tuple order matters"
    );
}

#[test]
fn composite_partial_tuple_returns_none() {
    let f = fields(vec![("tenant", text("t1"))]);
    let spec = GravitySpec::Composite(vec!["tenant".to_string(), "doc".to_string()]);
    assert_eq!(spec.compute_hash(&canon(), &f), None);
}

#[test]
fn legacy_field_string_is_raw() {
    assert_eq!(
        GravitySpec::from_legacy_field("rfc"),
        GravitySpec::Raw("rfc".to_string())
    );
}

#[test]
fn gravity_spec_encode_decode_roundtrip() {
    for spec in [
        GravitySpec::Raw("rfc".to_string()),
        GravitySpec::Normalized("empresa".to_string(), Transform::Lower),
        GravitySpec::Composite(vec!["tenant".to_string(), "doc".to_string()]),
    ] {
        let bytes = spec.encode(MAGIC).unwrap();
        assert_eq!(GravitySpec::decode(MAGIC, &bytes), Some(spec));
    }
}

#[test]
fn legacy_0x01_slot_decodes_as_raw() {
    let mut bytes = Vec::new();
    bytes.extend_from_slice(&MAGIC);
    bytes.push(0x01);
    bytes.extend_from_slice(&postcard::to_allocvec(&"rfc".to_string()).unwrap());
    assert_eq!(
        GravitySpec::decode(MAGIC, &bytes),
        Some(GravitySpec::Raw("rfc".to_string()))
    );
}

#[test]
fn slot_convention_marker() {
    let spec = GravitySpec::Raw("rfc".to_string());
    let current = spec.encode(MAGIC).unwrap();
    assert!(!GravitySpec::slot_is_pre_d1(MAGIC, &current), "0x03 is value-only");
    assert_eq!(GravitySpec::decode(MAGIC, &current), Some(spec.clone()));

    // A slot of the older format holds the same payload behind 0x02.
    let mut v02 = Vec::from(MAGIC);
    v02.push(0x02);
    v02.extend_from_slice(&current[3..]);
    assert!(GravitySpec::slot_is_pre_d1(MAGIC, &v02), "0x02 is name+value era");
    assert_eq!(
        GravitySpec::decode(MAGIC, &v02),
        Some(spec),
        "still decodes to the spec"
    );

    let mut v01 = Vec::from(MAGIC);
    v01.push(0x01);
    v01.extend_from_slice(&postcard::to_allocvec(&"rfc".to_string()).unwrap());
    assert!(GravitySpec::slot_is_pre_d1(MAGIC, &v01), "0x01 is name+value era");
}

#[test]
fn payload_is_postcard_of_the_variant_and_its_names() {
    let raw = GravitySpec::Raw("rfc".to_string()).encode(MAGIC).unwrap();
    assert_eq!(raw, vec![0x58, 0x5A, 0x03, 0x00, 0x03, b'r', b'f', b'c']);
    assert_eq!(
        raw[3..].to_vec(),
        postcard::to_allocvec(&(0u32, "rfc".to_string())).unwrap()
    );
    let lower = GravitySpec::Normalized("e".to_string(), Transform::Lower)
        .encode(MAGIC)
        .unwrap();
    assert_eq!(
        lower[3..].to_vec(),
        postcard::to_allocvec(&(1u32, "e".to_string(), 0u32)).unwrap()
    );
    let pair = GravitySpec::Composite(vec!["a".to_string(), "b".to_string()])
        .encode(MAGIC)
        .unwrap();
    assert_eq!(
        pair[3..].to_vec(),
        postcard::to_allocvec(&(2u32, vec!["a".to_string(), "b".to_string()])).unwrap()
    );
}

#[test]
fn decode_rejects_bad_magic_or_format() {
    assert_eq!(GravitySpec::decode(MAGIC, b"\x00\x00\x02xx"), None);
    let mut bad_fmt = Vec::from(MAGIC);
    bad_fmt.push(0x09);
    bad_fmt.extend_from_slice(b"junk");
    assert_eq!(GravitySpec::decode(MAGIC, &bad_fmt), None);
    assert_eq!(GravitySpec::decode(MAGIC, b""), None);
}

#[test]
fn fields_lists_components() {
    assert_eq!(GravitySpec::Raw("a".to_string()).fields(), vec!["a"]);
    assert_eq!(
        GravitySpec::Composite(vec!["x".to_string(), "y".to_string()]).fields(),
        vec!["x", "y"]
    );
}

#[test]
fn pinned_hash_raw_matches_write_side() {
    let spec = GravitySpec::Raw("rfc".to_string());
    let filters = vec![
        ("rfc".to_string(), FilterOp::Eq, text("ABC")),
        ("monto".to_string(), FilterOp::Gt, Value::Int(0)),
    ];
    assert_eq!(
        spec.pinned_gravity_hash(&canon(), &filters),
        Some(hash_to_48bits("ABC"))
    );
}

#[test]
fn pinned_hash_none_when_absent_non_eq_or_duplicated() {
    let spec = GravitySpec::Raw("rfc".to_string());
    assert_eq!(
        spec.pinned_gravity_hash(&canon(), &[("monto".to_string(), FilterOp::Eq, Value::Int(1))]),
        None,
        "gravity field absent → no fast path"
    );
    assert_eq!(
        spec.pinned_gravity_hash(&canon(), &[("rfc".to_string(), FilterOp::Gt, text("A"))]),
        None,
        "range on gravity field → no fast path"
    );
    assert_eq!(
        spec.pinned_gravity_hash(
            &canon(),
            &[
                ("rfc".to_string(), FilterOp::Eq, text("A")),
                ("rfc".to_string(), FilterOp::Eq, text("B")),
            ]
        ),
        None,
        "duplicate Eq on gravity field → bail"
    );
}

#[test]
fn pinned_hash_normalized_folds_query_value() {
    let spec = GravitySpec::Normalized("empresa".to_string(), Transform::Lower);
    let query = spec.pinned_gravity_hash(
        &canon(),
        &[("empresa".to_string(), FilterOp::Eq, text("Acme"))],
    );
    let stored = spec.compute_hash(&canon(), &fields(vec![("empresa", text("acme"))]));
    assert_eq!(query, stored);
}

#[test]
fn pinned_hash_composite_requires_full_tuple() {
    let spec = GravitySpec::Composite(vec!["tenant".to_string(), "doc".to_string()]);
    let full = vec![
        ("tenant".to_string(), FilterOp::Eq, text("t1")),
        ("doc".to_string(), FilterOp::Eq, text("d1")),
    ];
    assert_eq!(
        spec.pinned_gravity_hash(&canon(), &full),
        spec.compute_hash(
            &canon(),
            &fields(vec![("tenant", text("t1")), ("doc", text("d1"))])
        )
    );
    assert_eq!(
        spec.pinned_gravity_hash(
            &canon(),
            &[("tenant".to_string(), FilterOp::Eq, text("t1"))]
        ),
        None,
        "partial tuple → no fast path"
    );
}

#[test]
fn transforms_fold_text() {
    assert_eq!(Transform::Lower.apply("ÀBc"), "àbc");
    assert_eq!(Transform::Trim.apply("\t a b \n"), "a b");
}

#[test]
fn empty_values_keep_their_place_in_the_fold() {
    let pair = |a: &str, b: &str| {
        compute_gravity_hash(&canon(), &[("a".to_string(), text(a)), ("b".to_string(), text(b))])
    };
    assert_eq!(pair("", "x"), hash_to_48bits("\0x"));
    assert_eq!(pair("x", ""), hash_to_48bits("x\0"));
    assert_eq!(pair("", ""), hash_to_48bits("\0"));
    assert_ne!(pair("", "x"), compute_gravity_hash(&canon(), &[("b".to_string(), text("x"))]));
    let f = fields(vec![("tenant", text("")), ("doc", text("d1"))]);
    let spec = GravitySpec::Composite(vec!["tenant".to_string(), "doc".to_string()]);
    assert_eq!(spec.compute_hash(&canon(), &f), Some(hash_to_48bits("\0d1")));
}

#[test]
fn white_space_is_that_of_unicode() {
    for c in '\0'..=char::MAX {
        assert_eq!(is_white(c), c.is_whitespace(), "{c:?}");
    }
}

#[test]
fn the_kind_of_a_specification_is_a_number_that_fits() {
    let read = |payload: &[u8]| {
        GravitySpec::decode(MAGIC, &[&MAGIC[..], &[0x03], payload].concat())
    };
    let raw = Some(GravitySpec::Raw("g".to_string()));
    assert_eq!(read(&[0, 1, b'g']), raw);
    assert_eq!(read(&[0x80, 0x80, 0x80, 0x80, 0x00, 1, b'g']), raw);
    assert_eq!(read(&[0x80, 0x80, 0x80, 0x80, 0x10, 1, b'g']), None);
    assert_eq!(read(&[0x80, 0x80, 0x80, 0x80, 0x80, 0x00, 1, b'g']), None);
    assert_eq!(read(&[9, 1, b'g']), None);
    let two = GravitySpec::Composite(vec!["a".to_string(), "bc".to_string()]);
    assert_eq!(read(&[2, 2, 1, b'a', 2, b'b', b'c']), Some(two));
    assert_eq!(read(&[2, 3, 1, b'a', 2, b'b', b'c']), None);
    assert_eq!(read(&[2, 0]), Some(GravitySpec::Composite(vec![])));
}
