//! Byte strings: big-endian integers and the lexicographic order of the
//! keyspaces.

use vstd::prelude::*;
use vstd::slice::*;
use vstd::utf8::*;

verus! {

/// The two big-endian bytes of `n`.
pub open spec fn be16(n: u16) -> Seq<u8> {
    seq![(n / 256) as u8, (n % 256) as u8]
}

/// The four big-endian bytes of `n`.
pub open spec fn be32(n: u32) -> Seq<u8> {
    be16((n / 0x1_0000) as u16) + be16((n % 0x1_0000) as u16)
}

/// The eight big-endian bytes of `n`.
pub open spec fn be64(n: u64) -> Seq<u8> {
    be32((n / 0x1_0000_0000) as u32) + be32((n % 0x1_0000_0000) as u32)
}

/// The number that two big-endian bytes stand for.
pub open spec fn from_be16(hi: u8, lo: u8) -> u16 {
    (hi * 256 + lo) as u16
}

/// The number that eight big-endian bytes stand for.
pub open spec fn from_be64(b: Seq<u8>) -> u64 {
    (from_be16(b[0], b[1]) * 0x1_0000_0000_0000 + from_be16(b[2], b[3]) * 0x1_0000_0000
        + from_be16(b[4], b[5]) * 0x1_0000 + from_be16(b[6], b[7])) as u64
}

/// Reading back the two bytes of a number gives the number.
pub proof fn lemma_be16_round_trip(n: u16)
    ensures
        be16(n).len() == 2,
        from_be16(be16(n)[0], be16(n)[1]) == n,
{
}

/// Reading back the eight bytes of a number gives the number.
pub proof fn lemma_be64_round_trip(n: u64)
    ensures
        be64(n).len() == 8,
        from_be64(be64(n)) == n,
{
    let hi = (n / 0x1_0000_0000) as u32;
    let lo = (n % 0x1_0000_0000) as u32;
    lemma_be16_round_trip((hi / 0x1_0000) as u16);
    lemma_be16_round_trip((hi % 0x1_0000) as u16);
    lemma_be16_round_trip((lo / 0x1_0000) as u16);
    lemma_be16_round_trip((lo % 0x1_0000) as u16);
}

/// Appends the two big-endian bytes of `n`.
pub fn push_be16(out: &mut Vec<u8>, n: u16)
    ensures
        final(out)@ == old(out)@ + be16(n),
{
    out.push((n / 256) as u8);
    out.push((n % 256) as u8);
    assert(out@ =~= old(out)@ + be16(n));
}

/// Appends the four big-endian bytes of `n`.
pub fn push_be32(out: &mut Vec<u8>, n: u32)
    ensures
        final(out)@ == old(out)@ + be32(n),
{
    push_be16(out, (n / 0x1_0000) as u16);
    push_be16(out, (n % 0x1_0000) as u16);
    assert(out@ =~= old(out)@ + be32(n));
}

/// Appends the eight big-endian bytes of `n`.
pub fn push_be64(out: &mut Vec<u8>, n: u64)
    ensures
        final(out)@ == old(out)@ + be64(n),
{
    push_be32(out, (n / 0x1_0000_0000) as u32);
    push_be32(out, (n % 0x1_0000_0000) as u32);
    assert(out@ =~= old(out)@ + be64(n));
}

/// The number at `at..at + 2`.
pub fn read_be16(bytes: &[u8], at: usize) -> (n: u16)
    requires
        at + 2 <= bytes@.len(),
    ensures
        n == from_be16(bytes@[at as int], bytes@[at + 1]),
{
    bytes[at] as u16 * 256 + bytes[at + 1] as u16
}

/// The number at `at..at + 8`.
pub fn read_be64(bytes: &[u8], at: usize) -> (n: u64)
    requires
        at + 8 <= bytes@.len(),
    ensures
        n == from_be64(bytes@.subrange(at as int, at + 8)),
{
    let ghost b = bytes@.subrange(at as int, at + 8);
    assert(forall|i: int| 0 <= i < 8 ==> b[i] == bytes@[at + i]);
    assert(at + 8 <= bytes.len());
    read_be16(bytes, at) as u64 * 0x1_0000_0000_0000 + read_be16(bytes, at + 2) as u64
        * 0x1_0000_0000 + read_be16(bytes, at + 4) as u64 * 0x1_0000 + read_be16(
        bytes,
        at + 6,
    ) as u64
}

/// Appends a whole slice.
pub fn push_all(out: &mut Vec<u8>, more: &[u8])
    ensures
        final(out)@ == old(out)@ + more@,
{
    let n: usize = more.len();
    let mut i: usize = 0;
    while i < n
        invariant
            i <= n,
            n == more@.len(),
            out@ == old(out)@ + more@.take(i as int),
        decreases n - i,
    {
        out.push(more[i]);
        assert(more@.take(i + 1) =~= more@.take(i as int).push(more@[i as int]));
        i = i + 1;
    }
    assert(more@.take(n as int) =~= more@);
}

/// A copy of `bytes[from..to]`.
pub fn sub_bytes(bytes: &[u8], from: usize, to: usize) -> (r: Vec<u8>)
    requires
        from <= to <= bytes@.len(),
    ensures
        r@ == bytes@.subrange(from as int, to as int),
{
    slice_to_vec(slice_subrange(bytes, from, to))
}

// ---------------------------------------------------------------------------
// Lexicographic order
// ---------------------------------------------------------------------------
/// `a` and `b` agree before `i`, and at `i` the string `a` ends or holds the
/// smaller byte.
pub open spec fn lex_split(a: Seq<u8>, b: Seq<u8>, i: int) -> bool {
    &&& 0 <= i <= a.len()
    &&& i < b.len()
    &&& forall|j: int| 0 <= j < i ==> a[j] == b[j]
    &&& i == a.len() || a[i] < b[i]
}

/// `a` sorts strictly before `b`, byte by byte.
pub open spec fn lex_lt(a: Seq<u8>, b: Seq<u8>) -> bool {
    exists|i: int| lex_split(a, b, i)
}

/// `a` sorts before `b` or is `b`.
pub open spec fn lex_le(a: Seq<u8>, b: Seq<u8>) -> bool {
    a == b || lex_lt(a, b)
}

/// `p` begins `s`.
pub open spec fn starts_with(s: Seq<u8>, p: Seq<u8>) -> bool {
    p.len() <= s.len() && s.take(p.len() as int) == p
}

pub proof fn lemma_lex_irreflexive(a: Seq<u8>)
    ensures
        !lex_lt(a, a),
{
}

pub proof fn lemma_lex_transitive(a: Seq<u8>, b: Seq<u8>, c: Seq<u8>)
    requires
        lex_lt(a, b),
        lex_lt(b, c),
    ensures
        lex_lt(a, c),
{
    let i = choose|i: int| lex_split(a, b, i);
    let j = choose|j: int| lex_split(b, c, j);
    if i <= j {
        assert(lex_split(a, c, i));
    } else {
        assert(lex_split(a, c, j));
    }
}

pub proof fn lemma_lex_asymmetric(a: Seq<u8>, b: Seq<u8>)
    requires
        lex_lt(a, b),
    ensures
        !lex_lt(b, a),
        a != b,
{
    if lex_lt(b, a) {
        lemma_lex_transitive(a, b, a);
    }
    lemma_lex_irreflexive(a);
}

/// Two byte strings that agree up to `i` either differ in order or are equal.
proof fn lemma_lex_total_from(a: Seq<u8>, b: Seq<u8>, i: int)
    requires
        0 <= i <= a.len(),
        i <= b.len(),
        forall|j: int| 0 <= j < i ==> a[j] == b[j],
    ensures
        a == b || lex_lt(a, b) || lex_lt(b, a),
    decreases a.len() - i,
{
    if i == a.len() {
        if i == b.len() {
            assert(a =~= b);
        } else {
            assert(lex_split(a, b, i));
        }
    } else if i == b.len() {
        assert(lex_split(b, a, i));
    } else if a[i] < b[i] {
        assert(lex_split(a, b, i));
    } else if b[i] < a[i] {
        assert(lex_split(b, a, i));
    } else {
        lemma_lex_total_from(a, b, i + 1);
    }
}

/// Any two byte strings are equal or ordered.
pub proof fn lemma_lex_total(a: Seq<u8>, b: Seq<u8>)
    ensures
        a == b || lex_lt(a, b) || lex_lt(b, a),
{
    lemma_lex_total_from(a, b, 0);
}

/// A common beginning does not change the order.
pub proof fn lemma_lex_common_prefix(p: Seq<u8>, a: Seq<u8>, b: Seq<u8>)
    ensures
        lex_lt(p + a, p + b) <==> lex_lt(a, b),
{
    let n = p.len() as int;
    if lex_lt(a, b) {
        let i = choose|i: int| lex_split(a, b, i);
        assert(lex_split(p + a, p + b, n + i));
    }
    if lex_lt(p + a, p + b) {
        let i = choose|i: int| lex_split(p + a, p + b, i);
        assert(i >= n);
        assert forall|j: int| 0 <= j < i - n implies a[j] == b[j] by {
            assert((p + a)[n + j] == (p + b)[n + j]);
        }
        assert(lex_split(a, b, i - n));
    }
}

/// When the fixed-width heads differ, the heads decide the order.
pub proof fn lemma_lex_heads(h: Seq<u8>, k: Seq<u8>, a: Seq<u8>, b: Seq<u8>)
    requires
        h.len() == k.len(),
        lex_lt(h, k),
    ensures
        lex_lt(h + a, k + b),
{
    let i = choose|i: int| lex_split(h, k, i);
    assert(lex_split(h + a, k + b, i));
}

/// Whether `a` sorts strictly before `b`.
pub fn bytes_less(a: &[u8], b: &[u8]) -> (r: bool)
    ensures
        r == lex_lt(a@, b@),
{
    let mut i: usize = 0;
    while i < a.len() && i < b.len() && a[i] == b[i]
        invariant
            i <= a@.len(),
            i <= b@.len(),
            forall|j: int| 0 <= j < i ==> a@[j] == b@[j],
        decreases a@.len() - i,
    {
        i = i + 1;
    }
    let r = i < b.len() && (i == a.len() || a[i] < b[i]);
    proof {
        if r {
            assert(lex_split(a@, b@, i as int));
        } else if lex_lt(a@, b@) {
            let k = choose|k: int| lex_split(a@, b@, k);
            assert(k <= i);
        }
    }
    r
}

/// Whether the two byte strings are the same.
pub fn bytes_equal(a: &[u8], b: &[u8]) -> (r: bool)
    ensures
        r == (a@ == b@),
{
    if a.len() != b.len() {
        return false;
    }
    let mut i: usize = 0;
    while i < a.len()
        invariant
            i <= a@.len(),
            a@.len() == b@.len(),
            forall|j: int| 0 <= j < i ==> a@[j] == b@[j],
        decreases a@.len() - i,
    {
        if a[i] != b[i] {
            return false;
        }
        i = i + 1;
    }
    assert(a@ =~= b@);
    true
}

/// Whether `p` begins `s`.
pub fn bytes_start_with(s: &[u8], p: &[u8]) -> (r: bool)
    ensures
        r == starts_with(s@, p@),
{
    if s.len() < p.len() {
        return false;
    }
    let r = bytes_equal(slice_subrange(s, 0, p.len()), p);
    assert(s@.subrange(0, p@.len() as int) =~= s@.take(p@.len() as int));
    r
}

// ---------------------------------------------------------------------------
// Names
// ---------------------------------------------------------------------------
/// `a` sorts strictly before `b`, by the bytes of their UTF-8 form.
pub open spec fn str_lt(a: Seq<char>, b: Seq<char>) -> bool {
    lex_lt(encode_utf8(a), encode_utf8(b))
}

/// Two names with the same bytes are the same name.
pub proof fn lemma_utf8_injective(a: Seq<char>, b: Seq<char>)
    requires
        encode_utf8(a) == encode_utf8(b),
    ensures
        a == b,
{
    encode_utf8_decode_utf8(a);
    encode_utf8_decode_utf8(b);
}

/// Any two names are equal or ordered.
pub proof fn lemma_str_total(a: Seq<char>, b: Seq<char>)
    ensures
        a == b || str_lt(a, b) || str_lt(b, a),
{
    lemma_lex_total(encode_utf8(a), encode_utf8(b));
    if encode_utf8(a) == encode_utf8(b) {
        lemma_utf8_injective(a, b);
    }
}

/// Of two names not both sort before the other.
pub proof fn lemma_str_asymmetric(a: Seq<char>, b: Seq<char>)
    requires
        str_lt(a, b),
    ensures
        !str_lt(b, a),
{
    lemma_lex_asymmetric(encode_utf8(a), encode_utf8(b));
}

/// What does not sort before a second name, which does not sort before a third, does not
/// sort before the third.
pub proof fn lemma_str_not_before(a: Seq<char>, b: Seq<char>, c: Seq<char>)
    requires
        !str_lt(a, b),
        !str_lt(b, c),
    ensures
        !str_lt(a, c),
{
    lemma_str_total(a, b);
    lemma_str_total(b, c);
    if str_lt(a, c) && a != b && b != c {
        lemma_lex_transitive(encode_utf8(c), encode_utf8(b), encode_utf8(a));
        lemma_str_asymmetric(a, c);
    }
}

/// Whether the name `a` sorts strictly before `b`.
pub fn str_less(a: &str, b: &str) -> (r: bool)
    ensures
        r == str_lt(a@, b@),
{
    bytes_less(a.as_bytes(), b.as_bytes())
}

/// Whether the two names are the same.
pub fn str_equal(a: &str, b: &str) -> (r: bool)
    ensures
        r == (a@ == b@),
{
    let r = bytes_equal(a.as_bytes(), b.as_bytes());
    proof {
        if r {
            lemma_utf8_injective(a@, b@);
        }
    }
    r
}

} // verus!
