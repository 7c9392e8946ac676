use xyzdb_engine::reserved_keys::{mutually_exclusive, reserved, Disambiguator};

#[test]
fn reserved_prefixes_do_not_collide() {
    let all = reserved();
    for (i, a) in all.iter().enumerate() {
        for b in &all[i + 1..] {
            if a.prefix == b.prefix {
                assert!(
                    mutually_exclusive(a.disambiguator, b.disambiguator),
                    "reserved prefix {:02X?} is shared by '{}' and '{}' without a \
                     mutually-exclusive disambiguator ({:?} vs {:?})",
                    a.prefix,
                    a.name,
                    b.name,
                    a.disambiguator,
                    b.disambiguator
                );
            }
        }
    }
}

#[test]
fn only_keys_of_other_lengths_or_formats_can_share_a_prefix() {
    assert!(mutually_exclusive(Disambiguator::ExactTwoByteKey, Disambiguator::LongerKey));
    assert!(!mutually_exclusive(Disambiguator::LongerKey, Disambiguator::LongerKey));
    assert!(!mutually_exclusive(Disambiguator::Exclusive, Disambiguator::LongerKey));
    assert!(mutually_exclusive(
        Disambiguator::ValueFormatByte(1),
        Disambiguator::ValueFormatByte(2)
    ));
    assert!(!mutually_exclusive(
        Disambiguator::ValueFormatByte(1),
        Disambiguator::ValueFormatByte(1)
    ));
}

#[test]
fn ghost_metadata_is_told_from_former_pins_by_its_format() {
    let all = reserved();
    assert_eq!(all.len(), 11);
    let row = |name: &str| {
        all.iter().find(|k| k.name == name).map(|k| (k.prefix, k.disambiguator)).unwrap()
    };
    assert_eq!(row("GHOST_META"), ([0xFF, 0xFD], Disambiguator::ValueFormatByte(0x03)));
    assert_eq!(row("PIN_LEGACY"), ([0xFF, 0xFD], Disambiguator::ValueFormatByte(0x01)));
    assert_eq!(row("BOOT_EPOCH"), ([0xFF, 0xFC], Disambiguator::ExactTwoByteKey));
    assert_eq!(row("GHOST_WRITES"), ([0xFF, 0xFE], Disambiguator::Exclusive));
}
