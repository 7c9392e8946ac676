use xyzdb_engine::satellite_spec::SatelliteSpec;

const MAGIC: [u8; 2] = [0x58, 0x5A];

#[test]
fn satellite_spec_encode_decode_roundtrip() {
    let spec = SatelliteSpec::new("kind");
    let bytes = spec.encode(MAGIC).unwrap();
    assert_eq!(&bytes[0..2], &MAGIC);
    assert_eq!(bytes[2], 0x01, "current format is 0x01");
    assert_eq!(SatelliteSpec::decode(MAGIC, &bytes), Some(spec));
}

#[test]
fn decode_rejects_foreign_envelope() {
    assert_eq!(SatelliteSpec::decode(MAGIC, b"\x00\x00\x01junk"), None);
    assert_eq!(SatelliteSpec::decode(MAGIC, &[]), None);
    let mut wrong = Vec::from(MAGIC);
    wrong.push(0x7F);
    assert_eq!(SatelliteSpec::decode(MAGIC, &wrong), None);
}

fn slot(payload: &[u8]) -> Vec<u8> {
    [&MAGIC[..], &[0x01], payload].concat()
}

#[test]
fn a_field_name_is_a_length_and_as_many_bytes_of_text() {
    let field = |payload: &[u8]| SatelliteSpec::decode(MAGIC, &slot(payload)).map(|s| s.field);
    assert_eq!(field(&[1, b'a']), Some("a".to_string()));
    assert_eq!(field(&[0]), Some(String::new()));
    // A length may take more bytes than it needs.
    assert_eq!(field(&[0x81, 0x00, b'a']), Some("a".to_string()));
    // What follows the name is passed over.
    assert_eq!(field(&[1, b'a', b'b']), Some("a".to_string()));
    assert_eq!(field(&[2, b'a']), None);
    assert_eq!(field(&[1, 0xFF]), None);
    assert_eq!(field(&[]), None);
    assert_eq!(field(&[0x80]), None);
    // Ten bytes are the most that a length takes, and their number has to fit.
    let long = |last: u8| [vec![0x80u8; 9], vec![last]].concat();
    assert_eq!(field(&long(0x00)), Some(String::new()));
    assert_eq!(field(&long(0x02)), None);
    assert_eq!(field(&[vec![0x80u8; 10], vec![0x00]].concat()), None);
}
