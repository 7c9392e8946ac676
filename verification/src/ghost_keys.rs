//! The keys under which ghosts keep their entries, rollups and metadata.

use crate::bytes;
use crate::float;
use crate::reserved_keys;
use crate::text;
use vstd::prelude::*;
use vstd::slice::*;
use vstd::utf8;

verus! {

/// A prefix of two bytes and a number.
pub open spec fn prefixed(prefix: [u8; 2], id: u16) -> Seq<u8> {
    seq![prefix[0], prefix[1]] + bytes::be16(id)
}

/// A prefix of two bytes and a number, as a key.
fn prefixed_key(prefix: [u8; 2], id: u16) -> (r: Vec<u8>)
    ensures
        r@ == prefixed(prefix, id),
        r@.len() == 4,
{
    let mut r: Vec<u8> = Vec::new();
    r.push(prefix[0]);
    r.push(prefix[1]);
    bytes::push_be16(&mut r, id);
    assert(r@ =~= prefixed(prefix, id));
    r
}

/// The longest group key, in bytes, that a key or a value can hold.
pub const MAX_GROUP_KEY: usize = 65_535;

/// The part of a group key that is kept.
pub open spec fn kept(group_key: Seq<char>) -> Seq<u8> {
    let b = utf8::encode_utf8(group_key);
    if b.len() <= MAX_GROUP_KEY {
        b
    } else {
        b.take(MAX_GROUP_KEY as int)
    }
}

/// Bytes with their length in front.
pub open spec fn counted(b: Seq<u8>) -> Seq<u8> {
    bytes::be16(b.len() as u16) + b
}

/// The key of a group's rollup.
pub open spec fn rollup_key_bytes(ghost_id: u16, group_key: Seq<char>) -> Seq<u8> {
    prefixed(reserved_keys::ROLLUP, ghost_id) + counted(kept(group_key))
}

/// Appends the length and the kept bytes of a group key.
fn push_group_key(out: &mut Vec<u8>, group_key: &str)
    ensures
        final(out)@ == old(out)@ + counted(kept(group_key@)),
{
    let gk = group_key.as_bytes();
    let n: usize = if gk.len() <= MAX_GROUP_KEY {
        gk.len()
    } else {
        MAX_GROUP_KEY
    };
    let part = slice_subrange(gk, 0, n);
    assert(part@ =~= kept(group_key@));
    bytes::push_be16(out, n as u16);
    bytes::push_all(out, part);
    assert(out@ =~= old(out)@ + counted(kept(group_key@)));
}

/// The key of a group's rollup: one for each ghost and group.
pub fn rollup_key(ghost_id: u16, group_key: &str) -> (r: Vec<u8>)
    ensures
        r@ == rollup_key_bytes(ghost_id, group_key@),
{
    let mut r = prefixed_key(reserved_keys::ROLLUP, ghost_id);
    push_group_key(&mut r, group_key);
    r
}

/// The prefix of all rollups of a ghost.
pub fn rollup_ghost_prefix(ghost_id: u16) -> (r: Vec<u8>)
    ensures
        r@ == prefixed(reserved_keys::ROLLUP, ghost_id),
{
    prefixed_key(reserved_keys::ROLLUP, ghost_id)
}

/// The length of the group key that a rollup key announces.
pub open spec fn announced(key: Seq<u8>) -> int {
    bytes::from_be16(key[4], key[5]) as int
}

/// The group key that a rollup key holds, if it is well formed.
pub open spec fn key_group(key: Seq<u8>) -> Option<Seq<char>> {
    if key.len() < 6 || key.len() < 6 + announced(key) {
        None
    } else if !utf8::valid_utf8(key.subrange(6, 6 + announced(key))) {
        None
    } else {
        Some(utf8::decode_utf8(key.subrange(6, 6 + announced(key))))
    }
}

/// What an optional text says.
pub open spec fn opt_text(s: Option<String>) -> Option<Seq<char>> {
    match s {
        Some(t) => Some(t@),
        None => None,
    }
}

/// The group key that a rollup key holds, or `None` for a malformed key.
pub fn rollup_key_group(key: &[u8]) -> (r: Option<String>)
    ensures
        opt_text(r) == key_group(key@),
{
    if key.len() < 6 {
        return None;
    }
    let n: u16 = bytes::read_be16(key, 4);
    assert(n == announced(key@));
    if key.len() - 6 < n as usize {
        return None;
    }
    text::utf8_text(slice_subrange(key, 6, 6 + n as usize))
}

/// A rollup key gives its group back, where the group key fits.
pub proof fn law_rollup_key_round_trip(ghost_id: u16, group_key: Seq<char>)
    requires
        utf8::encode_utf8(group_key).len() <= MAX_GROUP_KEY,
    ensures
        key_group(rollup_key_bytes(ghost_id, group_key)) == Some(group_key),
{
    let key = rollup_key_bytes(ghost_id, group_key);
    let b = utf8::encode_utf8(group_key);
    let n = b.len() as u16;
    bytes::lemma_be16_round_trip(n);
    assert(key[4] == bytes::be16(n)[0] && key[5] == bytes::be16(n)[1]);
    assert(key.subrange(6, 6 + announced(key)) =~= b);
    utf8::encode_utf8_valid_utf8(group_key);
    utf8::encode_utf8_decode_utf8(group_key);
}

/// The rollup of every group lies under the prefix of its ghost.
pub proof fn law_rollup_key_has_ghost_prefix(ghost_id: u16, group_key: Seq<char>)
    ensures
        bytes::starts_with(
            rollup_key_bytes(ghost_id, group_key),
            prefixed(reserved_keys::ROLLUP, ghost_id),
        ),
{
    assert(rollup_key_bytes(ghost_id, group_key).take(4) =~= prefixed(
        reserved_keys::ROLLUP,
        ghost_id,
    ));
}

/// Rollup keys of two ghosts, or of two groups whose keys fit, differ; and no
/// such key begins another, so the range under one group's key holds that
/// group alone.
pub proof fn law_rollup_keys_are_prefix_free(
    g: u16,
    a: Seq<char>,
    h: u16,
    b: Seq<char>,
)
    requires
        utf8::encode_utf8(a).len() <= MAX_GROUP_KEY,
        utf8::encode_utf8(b).len() <= MAX_GROUP_KEY,
        bytes::starts_with(rollup_key_bytes(h, b), rollup_key_bytes(g, a)),
    ensures
        g == h,
        a == b,
{
    let s = rollup_key_bytes(g, a);
    let t = rollup_key_bytes(h, b);
    let ab = utf8::encode_utf8(a);
    let bb = utf8::encode_utf8(b);
    bytes::lemma_be16_round_trip(g);
    bytes::lemma_be16_round_trip(h);
    bytes::lemma_be16_round_trip(ab.len() as u16);
    bytes::lemma_be16_round_trip(bb.len() as u16);
    assert forall|i: int| 0 <= i < s.len() implies s[i] == t[i] by {
        assert(t.take(s.len() as int)[i] == t[i]);
    }
    assert(s[2] == bytes::be16(g)[0] && s[3] == bytes::be16(g)[1]);
    assert(t[2] == bytes::be16(h)[0] && t[3] == bytes::be16(h)[1]);
    assert(s[4] == bytes::be16(ab.len() as u16)[0] && s[5] == bytes::be16(ab.len() as u16)[1]);
    assert(t[4] == bytes::be16(bb.len() as u16)[0] && t[5] == bytes::be16(bb.len() as u16)[1]);
    assert(ab =~= bb) by {
        assert forall|i: int| 0 <= i < ab.len() implies ab[i] == bb[i] by {
            assert(s[6 + i] == t[6 + i]);
        }
    }
    bytes::lemma_utf8_injective(a, b);
}

/// `k` is the last place of `p` that can be raised.
pub open spec fn raised_at(p: Seq<u8>, k: int) -> bool {
    &&& 0 <= k < p.len()
    &&& p[k] < 0xFF
    &&& forall|j: int| k < j < p.len() ==> #[trigger] p[j] == 0xFF
}

/// `s` is the exclusive upper bound of the strings that begin with `p`: those
/// are exactly the strings from `p` up to, and without, `s`.
pub open spec fn bounds_prefix(p: Seq<u8>, s: Seq<u8>) -> bool {
    forall|t: Seq<u8>| #[trigger]
        bytes::starts_with(t, p) <==> bytes::lex_le(p, t) && bytes::lex_lt(t, s)
}

/// The strings that begin with `p` run to the end of the order.
pub open spec fn unbounded_prefix(p: Seq<u8>) -> bool {
    forall|t: Seq<u8>| #[trigger] bytes::starts_with(t, p) <==> bytes::lex_le(p, t)
}

proof fn lemma_prefix_le(p: Seq<u8>, t: Seq<u8>)
    requires
        bytes::starts_with(t, p),
    ensures
        bytes::lex_le(p, t),
{
    assert forall|j: int| 0 <= j < p.len() implies p[j] == t[j] by {
        assert(t.take(p.len() as int)[j] == t[j]);
    }
    if p.len() == t.len() {
        assert(p =~= t);
    } else {
        assert(bytes::lex_split(p, t, p.len() as int));
    }
}

proof fn lemma_raised(p: Seq<u8>, k: int, s: Seq<u8>)
    requires
        raised_at(p, k),
        s == p.take(k).push((p[k] + 1) as u8),
    ensures
        bounds_prefix(p, s),
{
    assert forall|t: Seq<u8>| #[trigger] bytes::starts_with(t, p) implies bytes::lex_le(p, t)
        && bytes::lex_lt(t, s) by {
        lemma_prefix_le(p, t);
        assert forall|j: int| 0 <= j < p.len() implies p[j] == t[j] by {
            assert(t.take(p.len() as int)[j] == t[j]);
        }
        assert(bytes::lex_split(t, s, k));
    }
    assert forall|t: Seq<u8>|
        bytes::lex_le(p, t) && bytes::lex_lt(t, s) implies #[trigger] bytes::starts_with(t, p) by {
        if p != t {
            let i = choose|i: int| bytes::lex_split(p, t, i);
            let j = choose|j: int| bytes::lex_split(t, s, j);
            if i == p.len() {
                assert(t.take(p.len() as int) =~= p);
            } else {
                assert(p[i] < t[i]);
                assert(i <= k);
                if j < i {
                    assert(t[j] == p[j] && s[j] == p[j]);
                } else if j == i {
                    if i < k {
                        assert(s[i] == p[i]);
                    }
                } else {
                    assert(t[i] == s[i]);
                    if i < k {
                        assert(s[i] == p[i]);
                    }
                }
            }
        } else {
            assert(t.take(p.len() as int) =~= p);
        }
    }
}

proof fn lemma_unbounded(p: Seq<u8>)
    requires
        forall|j: int| 0 <= j < p.len() ==> #[trigger] p[j] == 0xFF,
    ensures
        unbounded_prefix(p),
{
    assert forall|t: Seq<u8>| bytes::lex_le(p, t) implies #[trigger] bytes::starts_with(t, p) by {
        if p != t {
            let i = choose|i: int| bytes::lex_split(p, t, i);
            if i < p.len() {
                assert(p[i] == 0xFF);
            }
        }
        assert(t.take(p.len() as int) =~= p);
    }
    assert forall|t: Seq<u8>| #[trigger] bytes::starts_with(t, p) implies bytes::lex_le(p, t) by {
        lemma_prefix_le(p, t);
    }
}

/// The least string above all that begin with `prefix`, or `None` where there
/// is none.
pub fn byte_successor(prefix: &[u8]) -> (r: Option<Vec<u8>>)
    ensures
        match r {
            Some(s) => bounds_prefix(prefix@, s@) && exists|k: int| #[trigger]
                raised_at(prefix@, k) && s@ == prefix@.take(k).push((prefix@[k] + 1) as u8),
            None => unbounded_prefix(prefix@) && forall|j: int|
                0 <= j < prefix@.len() ==> #[trigger] prefix@[j] == 0xFF,
        },
{
    let mut n: usize = prefix.len();
    while n > 0
        invariant
            n <= prefix@.len(),
            forall|j: int| n <= j < prefix@.len() ==> #[trigger] prefix@[j] == 0xFF,
        decreases n,
    {
        let last: u8 = prefix[n - 1];
        if last < 0xFF {
            let mut s = bytes::sub_bytes(prefix, 0, n - 1);
            s.push(last + 1);
            proof {
                assert(s@ =~= prefix@.take(n - 1).push((prefix@[n - 1] + 1) as u8));
                assert(raised_at(prefix@, n - 1));
                lemma_raised(prefix@, n - 1, s@);
            }
            return Some(s);
        }
        n = n - 1;
    }
    proof {
        lemma_unbounded(prefix@);
    }
    None
}

/// The key of a ghost's metadata.
pub fn meta_dictionary_key(ghost_id: u16) -> (r: Vec<u8>)
    ensures
        r@ == prefixed(reserved_keys::GHOST_META, ghost_id),
{
    prefixed_key(reserved_keys::GHOST_META, ghost_id)
}

/// The key of a lobe's write counter.
pub fn total_writes_key(lobe_id: u16) -> (r: Vec<u8>)
    ensures
        r@ == prefixed(reserved_keys::GHOST_WRITES, lobe_id),
{
    prefixed_key(reserved_keys::GHOST_WRITES, lobe_id)
}

/// The value of a lobe's write counter.
pub fn total_writes_value(total: u64) -> (r: Vec<u8>)
    ensures
        r@ == bytes::be64(total),
{
    let mut r: Vec<u8> = Vec::new();
    bytes::push_be64(&mut r, total);
    assert(r@ =~= bytes::be64(total));
    r
}

/// The count that a stored value holds; a missing value or one that is not
/// eight bytes long counts nothing.
pub open spec fn stored_writes(v: Option<Seq<u8>>) -> u64 {
    match v {
        Some(b) => if b.len() == 8 {
            bytes::from_be64(b)
        } else {
            0
        },
        None => 0,
    }
}

/// Reads a lobe's write counter: the value of a plain read, or that of a
/// second read which bypasses the filters, where that was called for.
pub fn load_total_writes(
    found: Option<Vec<u8>>,
    recovered_from_wal: bool,
    confirmed: Option<Vec<u8>>,
) -> (n: u64)
    ensures
        n == stored_writes(
            match found {
                Some(v) => Some(v@),
                None => match confirmed {
                    Some(v) => if recovered_from_wal {
                        Some(v@)
                    } else {
                        None
                    },
                    None => None,
                },
            },
        ),
{
    let raw = match found {
        Some(v) => Some(v),
        None => if recovered_from_wal {
            confirmed
        } else {
            None
        },
    };
    match raw {
        Some(v) => if v.len() == 8 {
            let n: u64 = bytes::read_be64(v.as_slice(), 0);
            assert(v@.subrange(0, 8) =~= v@);
            n
        } else {
            0
        },
        None => 0,
    }
}

/// The write counter reads back what was written.
pub proof fn law_total_writes_round_trip(total: u64)
    ensures
        stored_writes(Some(bytes::be64(total))) == total,
{
    bytes::lemma_be64_round_trip(total);
}

/// The key of a group in the order of a metric.
pub open spec fn metric_key_bytes(
    ghost_id: u16,
    metric: u64,
    descending: bool,
    tiebreak: Seq<char>,
) -> Seq<u8> {
    prefixed(reserved_keys::METRIC_ORDER, ghost_id) + (float::metric_bytes(metric, descending)
        + utf8::encode_utf8(tiebreak))
}

/// The key of a group in the order of a metric: the metric in the requested
/// direction, then the group's text.
pub fn metric_order_key(ghost_id: u16, metric: u64, descending: bool, tiebreak: &str) -> (r: Vec<
    u8,
>)
    ensures
        r@ == metric_key_bytes(ghost_id, metric, descending, tiebreak@),
{
    let mut r = prefixed_key(reserved_keys::METRIC_ORDER, ghost_id);
    let enc = float::enc_metric(metric, descending);
    bytes::push_all(&mut r, enc.as_slice());
    bytes::push_all(&mut r, tiebreak.as_bytes());
    assert(r@ =~= metric_key_bytes(ghost_id, metric, descending, tiebreak@));
    r
}

/// The prefix of all metric-ordered entries of a ghost.
pub fn metric_order_ghost_prefix(ghost_id: u16) -> (r: Vec<u8>)
    ensures
        r@ == prefixed(reserved_keys::METRIC_ORDER, ghost_id),
{
    prefixed_key(reserved_keys::METRIC_ORDER, ghost_id)
}

/// The group ranks ahead: by its metric in the requested direction, and among
/// equal metrics by its text.
pub open spec fn group_ahead(
    a: u64,
    at: Seq<char>,
    b: u64,
    bt: Seq<char>,
    descending: bool,
) -> bool {
    float::ranks_ahead(a, b, descending) || (a == b && bytes::str_lt(at, bt))
}

/// Whether a group ranks ahead of another.
pub fn is_group_ahead(a: u64, at: &str, b: u64, bt: &str, descending: bool) -> (r: bool)
    ensures
        r == group_ahead(a, at@, b, bt@, descending),
{
    let ahead = if descending {
        float::total_less(b, a)
    } else {
        float::total_less(a, b)
    };
    ahead || (a == b && bytes::str_less(at, bt))
}

/// The keys of a ghost's groups order as the groups rank, and equal keys mean
/// equal metric and text.
pub proof fn law_metric_key_order(
    ghost_id: u16,
    a: u64,
    at: Seq<char>,
    b: u64,
    bt: Seq<char>,
    descending: bool,
)
    ensures
        bytes::lex_lt(
            metric_key_bytes(ghost_id, a, descending, at),
            metric_key_bytes(ghost_id, b, descending, bt),
        ) <==> group_ahead(a, at, b, bt, descending),
        metric_key_bytes(ghost_id, a, descending, at) == metric_key_bytes(
            ghost_id,
            b,
            descending,
            bt,
        ) <==> a == b && at == bt,
{
    let p = prefixed(reserved_keys::METRIC_ORDER, ghost_id);
    let am = float::metric_bytes(a, descending);
    let bm = float::metric_bytes(b, descending);
    let au = utf8::encode_utf8(at);
    let bu = utf8::encode_utf8(bt);
    float::law_metric_bytes_order(a, b, descending);
    float::law_metric_bytes_order(b, a, descending);
    bytes::lemma_lex_common_prefix(p, am + au, bm + bu);
    if a == b {
        bytes::lemma_lex_common_prefix(am, au, bu);
        if p + (am + au) == p + (bm + bu) {
            let n = p.len() + am.len();
            assert(au =~= (p + (am + au)).skip(n as int));
            assert(bu =~= (p + (bm + bu)).skip(n as int));
            bytes::lemma_utf8_injective(at, bt);
        }
    } else {
        bytes::lemma_lex_total(am, bm);
        if bytes::lex_lt(am, bm) {
            bytes::lemma_lex_heads(am, bm, au, bu);
        } else {
            bytes::lemma_lex_heads(bm, am, bu, au);
            if bytes::lex_lt(am + au, bm + bu) {
                bytes::lemma_lex_asymmetric(am + au, bm + bu);
            }
        }
        if p + (am + au) == p + (bm + bu) {
            assert(am =~= (p + (am + au)).subrange(4, 12));
            assert(bm =~= (p + (bm + bu)).subrange(4, 12));
        }
    }
}

/// The value of a metric-ordered entry: the group's key and its state.
pub open spec fn entry_value(group_key: Seq<char>, state: Seq<u8>) -> Seq<u8> {
    counted(kept(group_key)) + state
}

/// Writes the value of a metric-ordered entry; `state` is the encoded state.
pub fn encode_value(gk: &str, state: &[u8]) -> (r: Vec<u8>)
    ensures
        r@ == entry_value(gk@, state@),
{
    let mut r: Vec<u8> = Vec::new();
    push_group_key(&mut r, gk);
    bytes::push_all(&mut r, state);
    assert(r@ =~= entry_value(gk@, state@));
    r
}

/// The group key and the encoded state in a value, if it is well formed.
pub open spec fn split_value(b: Seq<u8>) -> Option<(Seq<char>, Seq<u8>)> {
    if b.len() < 2 || b.len() < 2 + bytes::from_be16(b[0], b[1]) {
        None
    } else {
        let n = bytes::from_be16(b[0], b[1]) as int;
        if utf8::valid_utf8(b.subrange(2, 2 + n)) {
            Some((utf8::decode_utf8(b.subrange(2, 2 + n)), b.skip(2 + n)))
        } else {
            None
        }
    }
}

/// Reads the value of a metric-ordered entry: the group's key and its encoded
/// state, or `None` for a malformed value.
pub fn decode_value(b: &[u8]) -> (r: Option<(String, Vec<u8>)>)
    ensures
        match r {
            Some((gk, state)) => split_value(b@) == Some((gk@, state@)),
            None => split_value(b@) is None,
        },
{
    if b.len() < 2 {
        return None;
    }
    let n: u16 = bytes::read_be16(b, 0);
    if b.len() - 2 < n as usize {
        return None;
    }
    match text::utf8_text(slice_subrange(b, 2, 2 + n as usize)) {
        Some(gk) => {
            let state = bytes::sub_bytes(b, 2 + n as usize, b.len());
            assert(state@ =~= b@.skip(2 + n as int));
            Some((gk, state))
        },
        None => None,
    }
}

/// A metric-ordered value gives its group and state back, where the group key
/// fits.
pub proof fn law_entry_value_round_trip(group_key: Seq<char>, state: Seq<u8>)
    requires
        utf8::encode_utf8(group_key).len() <= MAX_GROUP_KEY,
    ensures
        split_value(entry_value(group_key, state)) == Some((group_key, state)),
{
    let b = entry_value(group_key, state);
    let gk = utf8::encode_utf8(group_key);
    bytes::lemma_be16_round_trip(gk.len() as u16);
    assert(b[0] == bytes::be16(gk.len() as u16)[0] && b[1] == bytes::be16(gk.len() as u16)[1]);
    let n = gk.len() as int;
    assert(b.subrange(2, 2 + n) =~= gk);
    assert(b.skip(2 + n) =~= state);
    utf8::encode_utf8_valid_utf8(group_key);
    utf8::encode_utf8_decode_utf8(group_key);
}

/// Of a group key as many bytes are kept as sixteen bits can count, and all where it has
/// no more.
pub proof fn law_group_key_is_kept(group_key: Seq<char>)
    ensures
        ({
            let b = utf8::encode_utf8(group_key);
            &&& kept(group_key).len() == if b.len() < 65_536 {
                b.len()
            } else {
                65_535
            }
            &&& forall|i: int|
                0 <= i < kept(group_key).len() ==> #[trigger] kept(group_key)[i] == b[i]
        }),
{
}

} // verus!
