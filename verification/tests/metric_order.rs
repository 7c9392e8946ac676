use xyzdb_engine::float::enc_metric;
use xyzdb_engine::ghost_keys::{
    byte_successor, decode_value, encode_value, is_group_ahead, load_total_writes,
    meta_dictionary_key, metric_order_ghost_prefix, metric_order_key, rollup_ghost_prefix,
    rollup_key, rollup_key_group, total_writes_key, total_writes_value,
};

#[test]
fn enc_metric_orders_like_total_cmp() {
    let vals = [
        f64::MIN,
        -1e18,
        -1000.5,
        -1.0,
        -0.0,
        0.0,
        1.0,
        2.0,
        2.0,
        41.999,
        42.0,
        1000.5,
        1e18,
        f64::MAX,
    ];
    for &descending in &[false, true] {
        let mut by_bytes: Vec<f64> = vals.to_vec();
        by_bytes.sort_by(|a, b| {
            enc_metric(a.to_bits(), descending).cmp(&enc_metric(b.to_bits(), descending))
        });
        let mut expected: Vec<f64> = vals.to_vec();
        expected.sort_by(|a, b| {
            if descending {
                b.total_cmp(a)
            } else {
                a.total_cmp(b)
            }
        });
        for (g, e) in by_bytes.iter().zip(expected.iter()) {
            assert_eq!(
                g.total_cmp(e),
                std::cmp::Ordering::Equal,
                "descending={descending}: byte order diverges from total_cmp ({g} vs {e})"
            );
        }
    }
}

#[test]
fn key_order_matches_apply_top_comparator() {
    let rows = [
        (100.0_f64, "g00"),
        (50.0, "g03"),
        (50.0, "g01"),
        (50.0, "g02"),
        (10.0, "g04"),
        (-5.0, "g05"),
    ];
    for &descending in &[false, true] {
        let mut by_key: Vec<(f64, &str)> = rows.to_vec();
        by_key.sort_by(|a, b| {
            metric_order_key(1, a.0.to_bits(), descending, a.1)
                .cmp(&metric_order_key(1, b.0.to_bits(), descending, b.1))
        });
        let mut expected: Vec<(f64, &str)> = rows.to_vec();
        expected.sort_by(|a, b| {
            let primary = if descending {
                b.0.total_cmp(&a.0)
            } else {
                a.0.total_cmp(&b.0)
            };
            primary.then_with(|| a.1.cmp(b.1))
        });
        assert_eq!(by_key, expected, "descending={descending}");
        for pair in expected.windows(2) {
            assert!(is_group_ahead(
                pair[0].0.to_bits(),
                pair[0].1,
                pair[1].0.to_bits(),
                pair[1].1,
                descending
            ));
        }
    }
}

#[test]
fn value_round_trips() {
    let bytes = encode_value("3:sabc", &[3, 0, 0]);
    let (gk, back) = decode_value(&bytes).expect("decode");
    assert_eq!(gk, "3:sabc");
    assert_eq!(back[0], 3);
    assert_eq!(back, vec![3, 0, 0]);
}

#[test]
fn cut_values_are_not_read() {
    let bytes = encode_value("abc", &[]);
    assert_eq!(decode_value(&bytes), Some(("abc".to_string(), vec![])));
    assert_eq!(decode_value(&bytes[..bytes.len() - 1]), None);
    assert_eq!(decode_value(&[]), None);
}

#[test]
fn rollup_keys_lead_back_to_their_group() {
    let k = rollup_key(258, "3:sabc");
    assert!(k.starts_with(&rollup_ghost_prefix(258)));
    assert_eq!(&k[..4], &[0xFF, 0xF9, 1, 2]);
    assert_eq!(rollup_key_group(&k), Some("3:sabc".to_string()));
    assert_eq!(rollup_key_group(&k[..3]), None);
}

#[test]
fn metric_order_keys_lie_under_their_ghost() {
    let k = metric_order_key(7, 1.5f64.to_bits(), false, "g");
    assert!(k.starts_with(&metric_order_ghost_prefix(7)));
    assert!(!k.starts_with(&metric_order_ghost_prefix(8)));
}

#[test]
fn byte_successor_is_the_next_prefix() {
    assert_eq!(byte_successor(&[1, 2]), Some(vec![1, 3]));
    assert_eq!(byte_successor(&[1, 0xFF]), Some(vec![2]));
    assert_eq!(byte_successor(&[0xFF, 0xFF]), None);
    assert_eq!(byte_successor(&[]), None);
}

#[test]
fn the_write_count_is_restored() {
    assert_eq!(total_writes_value(258), vec![0, 0, 0, 0, 0, 0, 1, 2]);
    assert_ne!(total_writes_key(1), total_writes_key(2));
    assert_ne!(meta_dictionary_key(1), meta_dictionary_key(2));
    assert_eq!(load_total_writes(None, false, None), 0);
    assert_eq!(load_total_writes(Some(total_writes_value(5)), false, None), 5);
}
