//! The wire form of integers, texts and lists of texts.

use crate::text;
use vstd::prelude::*;
use vstd::utf8;

verus! {

/// `postcard::Error`: why a value could not be written or read.
#[verifier::external_type_specification]
#[verifier::external_body]
pub struct ExError(postcard::Error);

/// A number as bytes of seven bits each, least significant first; every byte
/// but the last has its top bit set.
pub open spec fn varint(n: nat) -> Seq<u8>
    decreases n,
{
    if n < 128 {
        seq![n as u8]
    } else {
        seq![(n % 128 + 128) as u8] + varint(n / 128)
    }
}

/// A text on the wire: the length of its UTF-8 form, then that form.
pub open spec fn packed_text(s: Seq<char>) -> Seq<u8> {
    varint(utf8::encode_utf8(s).len()) + utf8::encode_utf8(s)
}

/// Texts on the wire one after the other.
pub open spec fn packed_texts(names: Seq<Seq<char>>) -> Seq<u8>
    decreases names.len(),
{
    if names.len() == 0 {
        Seq::empty()
    } else {
        packed_texts(names.drop_last()) + packed_text(names.last())
    }
}

/// A list of texts on the wire: how many, then each.
pub open spec fn packed_list(names: Seq<Seq<char>>) -> Seq<u8> {
    varint(names.len()) + packed_texts(names)
}

/// `postcard::to_allocvec` on a `u32`: the number's variable-length form. It
/// does not fail, for the buffer grows as needed.
#[verifier::external_body]
pub(crate) fn pack_u32(n: u32) -> (r: Result<Vec<u8>, postcard::Error>)
    ensures
        r is Ok && r->Ok_0@ == varint(n as nat),
{
    postcard::to_allocvec(&n)
}

/// `postcard::to_allocvec` on a text: length and UTF-8 bytes. It does not
/// fail.
#[verifier::external_body]
pub(crate) fn pack_text(s: &str) -> (r: Result<Vec<u8>, postcard::Error>)
    ensures
        r is Ok && r->Ok_0@ == packed_text(s@),
{
    postcard::to_allocvec(s)
}

/// `postcard::to_allocvec` on a list of texts: how many, then each. It does
/// not fail.
#[verifier::external_body]
pub(crate) fn pack_list(names: &Vec<String>) -> (r: Result<Vec<u8>, postcard::Error>)
    ensures
        r is Ok && r->Ok_0@ == packed_list(text::names(names@)),
{
    postcard::to_allocvec(names)
}

/// The number at the front of `b` in at most `width` bytes, and what is left.
pub open spec fn taken_number(b: Seq<u8>, width: nat) -> Option<(nat, Seq<u8>)>
    decreases width,
{
    if width == 0 || b.len() == 0 {
        None
    } else if b[0] < 128 {
        Some((b[0] as nat, b.skip(1)))
    } else {
        match taken_number(b.skip(1), (width - 1) as nat) {
            Some((n, rest)) => Some(((b[0] - 128 + 128 * n) as nat, rest)),
            None => None,
        }
    }
}

/// The `u32` at the front of `b`, and what is left: a number of at most five bytes
/// that fits.
pub open spec fn taken_u32(b: Seq<u8>) -> Option<(u32, Seq<u8>)> {
    match taken_number(b, 5) {
        Some((n, rest)) => if n <= u32::MAX {
            Some((n as u32, rest))
        } else {
            None
        },
        None => None,
    }
}

/// The length at the front of `b`, and what is left: a number that fits in a
/// `usize`, in no more bytes than the greatest takes.
pub open spec fn taken_len(b: Seq<u8>) -> Option<(nat, Seq<u8>)> {
    match taken_number(
        b,
        if usize::MAX > u32::MAX {
            10
        } else {
            5
        },
    ) {
        Some((n, rest)) => if n <= usize::MAX {
            Some((n, rest))
        } else {
            None
        },
        None => None,
    }
}

/// The text at the front of `b`, and what is left: its length, and as many bytes of
/// UTF-8.
pub open spec fn taken_text(b: Seq<u8>) -> Option<(Seq<char>, Seq<u8>)> {
    match taken_len(b) {
        Some((n, rest)) => if n <= rest.len() && utf8::valid_utf8(rest.take(n as int)) {
            Some((utf8::decode_utf8(rest.take(n as int)), rest.skip(n as int)))
        } else {
            None
        },
        None => None,
    }
}

/// The `n` texts at the front of `b`, and what is left.
pub open spec fn taken_texts(b: Seq<u8>, n: nat) -> Option<(Seq<Seq<char>>, Seq<u8>)>
    decreases n,
{
    if n == 0 {
        Some((Seq::empty(), b))
    } else {
        match taken_text(b) {
            Some((s, rest)) => match taken_texts(rest, (n - 1) as nat) {
                Some((v, after)) => Some((seq![s] + v, after)),
                None => None,
            },
            None => None,
        }
    }
}

/// The list of texts at the front of `b`, and what is left.
pub open spec fn taken_list(b: Seq<u8>) -> Option<(Seq<Seq<char>>, Seq<u8>)> {
    match taken_len(b) {
        Some((n, rest)) => taken_texts(rest, n),
        None => None,
    }
}

/// `postcard::take_from_bytes` for a `u32`: the number at the front and the rest.
#[verifier::external_body]
fn read_u32(b: &[u8]) -> (r: Option<(u32, &[u8])>)
    ensures
        match r {
            Some((n, rest)) => taken_u32(b@) == Some((n, rest@)),
            None => taken_u32(b@) is None,
        },
{
    postcard::take_from_bytes(b).ok()
}

/// `postcard::take_from_bytes` for a text: the text at the front and the rest.
#[verifier::external_body]
fn read_text(b: &[u8]) -> (r: Option<(String, &[u8])>)
    ensures
        match r {
            Some((s, rest)) => taken_text(b@) == Some((s@, rest@)),
            None => taken_text(b@) is None,
        },
{
    postcard::take_from_bytes(b).ok()
}

/// `postcard::take_from_bytes` for a list of texts: the list at the front and the
/// rest.
#[verifier::external_body]
fn read_list(b: &[u8]) -> (r: Option<(Vec<String>, &[u8])>)
    ensures
        match r {
            Some((v, rest)) => taken_list(b@) == Some((text::names(v@), rest@)),
            None => taken_list(b@) is None,
        },
{
    postcard::take_from_bytes(b).ok()
}

/// How many numbers take at most `width` bytes.
spec fn within(width: nat) -> nat
    decreases width,
{
    if width == 0 {
        1
    } else {
        128 * within((width - 1) as nat)
    }
}

proof fn lemma_number_read_back(n: nat, rest: Seq<u8>, width: nat)
    requires
        0 < width,
        n < within(width),
    ensures
        taken_number(varint(n) + rest, width) == Some((n, rest)),
    decreases width,
{
    let b = varint(n) + rest;
    reveal_with_fuel(within, 2);
    if n < 128 {
        assert(b[0] == n as u8);
        assert(b.skip(1) =~= rest);
    } else {
        assert(width > 1);
        lemma_number_read_back(n / 128, rest, (width - 1) as nat);
        assert(b[0] == (n % 128 + 128) as u8);
        assert(b.skip(1) =~= varint(n / 128) + rest);
    }
}

proof fn lemma_len_read_back(n: nat, rest: Seq<u8>)
    requires
        n <= usize::MAX,
    ensures
        taken_len(varint(n) + rest) == Some((n, rest)),
{
    reveal_with_fuel(within, 11);
    if usize::MAX > u32::MAX {
        assert(n < within(10));
        lemma_number_read_back(n, rest, 10);
    } else {
        assert(n < within(5));
        lemma_number_read_back(n, rest, 5);
    }
}

/// A number that was written is read back, with what follows it left.
pub proof fn law_u32_read_back(n: u32, rest: Seq<u8>)
    ensures
        taken_u32(varint(n as nat) + rest) == Some((n, rest)),
{
    reveal_with_fuel(within, 6);
    lemma_number_read_back(n as nat, rest, 5);
}

/// A text that was written is read back, with what follows it left, if its length
/// fits in a `usize`.
pub proof fn law_text_read_back(s: Seq<char>, rest: Seq<u8>)
    requires
        utf8::encode_utf8(s).len() <= usize::MAX,
    ensures
        taken_text(packed_text(s) + rest) == Some((s, rest)),
{
    let e = utf8::encode_utf8(s);
    assert(packed_text(s) + rest =~= varint(e.len()) + (e + rest));
    lemma_len_read_back(e.len(), e + rest);
    utf8::encode_utf8_valid_utf8(s);
    utf8::encode_utf8_decode_utf8(s);
    assert((e + rest).take(e.len() as int) =~= e);
    assert((e + rest).skip(e.len() as int) =~= rest);
}

proof fn lemma_first_text(v: Seq<Seq<char>>)
    requires
        v.len() > 0,
    ensures
        packed_texts(v) == packed_text(v[0]) + packed_texts(v.skip(1)),
    decreases v.len(),
{
    let d = v.drop_last();
    if d.len() == 0 {
        assert(v.skip(1) =~= Seq::<Seq<char>>::empty());
        assert(d =~= Seq::<Seq<char>>::empty());
        assert(packed_texts(v) =~= packed_text(v[0]) + packed_texts(v.skip(1)));
    } else {
        lemma_first_text(d);
        assert(v.skip(1).drop_last() =~= d.skip(1));
        assert(v.skip(1).last() == v.last());
        assert(packed_texts(v) =~= packed_text(v[0]) + packed_texts(v.skip(1)));
    }
}

proof fn lemma_varint_not_empty(n: nat)
    ensures
        varint(n).len() > 0,
{
}

proof fn lemma_texts_read_back(v: Seq<Seq<char>>, rest: Seq<u8>)
    requires
        packed_texts(v).len() <= usize::MAX,
    ensures
        taken_texts(packed_texts(v) + rest, v.len()) == Some((v, rest)),
        v.len() <= packed_texts(v).len(),
    decreases v.len(),
{
    if v.len() == 0 {
        assert(packed_texts(v) + rest =~= rest);
        assert(v =~= Seq::<Seq<char>>::empty());
    } else {
        let tail = v.skip(1);
        lemma_first_text(v);
        lemma_varint_not_empty(utf8::encode_utf8(v[0]).len());
        lemma_texts_read_back(tail, rest);
        law_text_read_back(v[0], packed_texts(tail) + rest);
        assert(packed_texts(v) + rest =~= packed_text(v[0]) + (packed_texts(tail) + rest));
        assert(seq![v[0]] + tail =~= v);
    }
}

/// A list that was written is read back, with what follows it left, if its length
/// fits in a `usize`.
pub proof fn law_list_read_back(v: Seq<Seq<char>>, rest: Seq<u8>)
    requires
        packed_list(v).len() <= usize::MAX,
    ensures
        taken_list(packed_list(v) + rest) == Some((v, rest)),
{
    lemma_texts_read_back(v, rest);
    assert(packed_list(v) + rest =~= varint(v.len()) + (packed_texts(v) + rest));
    lemma_len_read_back(v.len(), packed_texts(v) + rest);
}

/// Reads a number; one that was written is read back.
pub(crate) fn take_u32(b: &[u8]) -> (r: Option<(u32, &[u8])>)
    ensures
        match r {
            Some((n, rest)) => taken_u32(b@) == Some((n, rest@)),
            None => taken_u32(b@) is None,
        },
        forall|n: u32, rest: Seq<u8>|
            b@ == #[trigger] (varint(n as nat) + rest) ==> r is Some && r->Some_0.0 == n
                && r->Some_0.1@ == rest,
{
    proof {
        assert forall|n: u32, rest: Seq<u8>| b@ == #[trigger] (varint(n as nat) + rest) implies
            taken_u32(b@) == Some((n, rest)) by {
            law_u32_read_back(n, rest);
        }
    }
    read_u32(b)
}

/// Reads a text; one that was written is read back.
pub(crate) fn take_text(b: &[u8]) -> (r: Option<(String, &[u8])>)
    ensures
        match r {
            Some((s, rest)) => taken_text(b@) == Some((s@, rest@)),
            None => taken_text(b@) is None,
        },
        forall|s: Seq<char>, rest: Seq<u8>|
            b@ == #[trigger] (packed_text(s) + rest) ==> r is Some && r->Some_0.0@ == s
                && r->Some_0.1@ == rest,
{
    let n: usize = b.len();
    proof {
        assert forall|s: Seq<char>, rest: Seq<u8>| b@ == #[trigger] (packed_text(s) + rest) implies
            taken_text(b@) == Some((s, rest)) by {
            assert(utf8::encode_utf8(s).len() <= n);
            law_text_read_back(s, rest);
        }
    }
    read_text(b)
}

/// Reads a list of texts; one that was written is read back.
pub(crate) fn take_list(b: &[u8]) -> (r: Option<(Vec<String>, &[u8])>)
    ensures
        match r {
            Some((v, rest)) => taken_list(b@) == Some((text::names(v@), rest@)),
            None => taken_list(b@) is None,
        },
        forall|v: Seq<Seq<char>>, rest: Seq<u8>|
            b@ == #[trigger] (packed_list(v) + rest) ==> r is Some && text::names(
                r->Some_0.0@,
            ) == v && r->Some_0.1@ == rest,
{
    let n: usize = b.len();
    proof {
        assert forall|v: Seq<Seq<char>>, rest: Seq<u8>|
            b@ == #[trigger] (packed_list(v) + rest) implies taken_list(b@) == Some((v, rest)) by {
            assert(packed_list(v).len() <= n);
            law_list_read_back(v, rest);
        }
    }
    read_list(b)
}

} // verus!
