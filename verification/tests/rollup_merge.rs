use xyzdb_engine::rollup_merge::RollupMergeOperator;

/// A count and a sum.
#[derive(Clone, Copy, Debug, PartialEq)]
struct RollupDelta {
    count: i64,
    sum: f64,
}

fn encode(d: &RollupDelta) -> Vec<u8> {
    let mut b = d.count.to_be_bytes().to_vec();
    b.extend_from_slice(&d.sum.to_be_bytes());
    b
}

fn decode(b: &[u8]) -> Option<RollupDelta> {
    if b.len() != 16 {
        return None;
    }
    let mut c = [0u8; 8];
    let mut s = [0u8; 8];
    c.copy_from_slice(&b[..8]);
    s.copy_from_slice(&b[8..]);
    Some(RollupDelta { count: i64::from_be_bytes(c), sum: f64::from_be_bytes(s) })
}

fn fold(a: &RollupDelta, b: &RollupDelta) -> RollupDelta {
    RollupDelta { count: a.count + b.count, sum: a.sum + b.sum }
}

#[test]
fn owns_only_rollup_prefix() {
    let op = RollupMergeOperator;
    assert!(op.owns(&[0xFF, 0xF9, 1, 2, 3]));
    assert!(!op.owns(&[0xFF, 0xFA, 1]));
    assert!(!op.owns(b"some-anchor-key"));
}

#[test]
fn merge_folds_delta_chain() {
    let op = RollupMergeOperator;
    let vals: Vec<Vec<u8>> = [30.0, 20.0, 10.0]
        .iter()
        .map(|v| encode(&RollupDelta { count: 1, sum: *v }))
        .collect();
    let refs: Vec<&[u8]> = vals.iter().map(|v| v.as_slice()).collect();
    let zero = RollupDelta { count: 0, sum: 0.0 };
    let folded = op.merge(&refs, zero, decode, fold, encode);
    let st = decode(&folded).unwrap();
    assert_eq!(st.count, 3);
    assert!((st.sum - 60.0).abs() < 1e-9);
}

#[test]
fn merge_skips_what_cannot_be_read() {
    let op = RollupMergeOperator;
    let good = encode(&RollupDelta { count: 2, sum: 5.0 });
    let refs: Vec<&[u8]> = vec![&good, b"junk"];
    let zero = RollupDelta { count: 0, sum: 0.0 };
    let st = decode(&op.merge(&refs, zero, decode, fold, encode)).unwrap();
    assert_eq!(st, RollupDelta { count: 2, sum: 5.0 });
}

#[test]
fn order_and_compaction_do_not_matter() {
    let op = RollupMergeOperator;
    let zero = RollupDelta { count: 0, sum: 0.0 };
    let d = |n: i64| encode(&RollupDelta { count: n, sum: 2.0 * n as f64 });
    let (a, b, c) = (d(1), d(2), d(4));
    let whole = op.merge(&vec![&a[..], &b[..], &c[..]], zero, decode, fold, encode);
    let turned = op.merge(&vec![&c[..], &a[..], &b[..]], zero, decode, fold, encode);
    assert_eq!(whole, turned);
    let part = op.merge(&vec![&b[..], &c[..]], zero, decode, fold, encode);
    let compacted = op.merge(&vec![&a[..], &part[..]], zero, decode, fold, encode);
    assert_eq!(whole, compacted);
    assert_eq!(decode(&whole), Some(RollupDelta { count: 7, sum: 14.0 }));
}
