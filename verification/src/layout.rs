//! How keys and identities are laid out by the storage layer.

use crate::bytes;
use crate::error::XyzError;
use vstd::prelude::*;

verus! {

/// The length of a spatial key: lobe, gravity hash, satellite, type, time and
/// sequence number.
pub const SPATIAL_KEY_SIZE: usize = 22;

/// The length of a spatial key without time and sequence number, as older
/// identities hold it.
pub const SHORT_KEY_SIZE: usize = 10;

/// The length of an identity in bytes.
pub const LID_SIZE: usize = 16;

/// Where a record lies: its lobe, the hash that places it, its satellite if the
/// lobe has them, its type, the time in microseconds and a sequence number.
#[derive(Clone, Copy, Debug, PartialEq, Eq, Structural)]
pub struct Place {
    pub lobe_id: u16,
    pub gravity_hash: u64,
    pub satellite: Option<u16>,
    pub type_id: u16,
    pub micros: u64,
    pub seq: u64,
}

/// The storage layer's layout: the key of an anchor's value, the spatial key of
/// a place, the hash in a spatial key, and the bytes and the text of an
/// identity.
pub struct Layout<D, S, G, B, F, T> {
    pub dictionary_key: D,
    pub spatial_key: S,
    pub gravity_hash: G,
    pub lid_bytes: B,
    pub lid_from: F,
    pub lid_text: T,
}

impl<
    D: Fn(u16, &str, &str) -> Vec<u8>,
    S: Fn(Place) -> Vec<u8>,
    G: Fn(&[u8]) -> u64,
    B: Fn(u128) -> Vec<u8>,
    F: Fn(&[u8]) -> u128,
    T: Fn(u128) -> String,
> Layout<D, S, G, B, F, T> {
    /// The layout accepts everything and depends on nothing but what the
    /// arguments stand for.
    pub open spec fn sound(&self) -> bool {
        &&& forall|l: u16, n: &str, v: &str| #[trigger] self.dictionary_key.requires((l, n, v))
        &&& forall|l: u16, n: &str, v: &str, m: &str, w: &str, a: Vec<u8>, b: Vec<u8>|
            #![trigger self.dictionary_key.ensures((l, n, v), a), self.dictionary_key.ensures((l, m, w), b)]
            self.dictionary_key.ensures((l, n, v), a) && self.dictionary_key.ensures((l, m, w), b)
                && n@ == m@ && v@ == w@ ==> a@ == b@
        &&& forall|p: Place| #[trigger] self.spatial_key.requires((p,))
        &&& forall|p: Place, a: Vec<u8>, b: Vec<u8>|
            #![trigger self.spatial_key.ensures((p,), a), self.spatial_key.ensures((p,), b)]
            self.spatial_key.ensures((p,), a) && self.spatial_key.ensures((p,), b) ==> a@ == b@
        &&& forall|k: &[u8]| #[trigger] self.gravity_hash.requires((k,))
        &&& forall|k: &[u8], m: &[u8], a: u64, b: u64|
            #![trigger self.gravity_hash.ensures((k,), a), self.gravity_hash.ensures((m,), b)]
            self.gravity_hash.ensures((k,), a) && self.gravity_hash.ensures((m,), b) && k@ == m@
                ==> a == b
        &&& forall|l: u128| #[trigger] self.lid_bytes.requires((l,))
        &&& forall|l: u128, a: Vec<u8>, b: Vec<u8>|
            #![trigger self.lid_bytes.ensures((l,), a), self.lid_bytes.ensures((l,), b)]
            self.lid_bytes.ensures((l,), a) && self.lid_bytes.ensures((l,), b) ==> a@ == b@
        &&& forall|k: &[u8]| #[trigger] self.lid_from.requires((k,))
        &&& forall|k: &[u8], m: &[u8], a: u128, b: u128|
            #![trigger self.lid_from.ensures((k,), a), self.lid_from.ensures((m,), b)]
            self.lid_from.ensures((k,), a) && self.lid_from.ensures((m,), b) && k@ == m@ ==> a == b
        &&& forall|l: u128| #[trigger] self.lid_text.requires((l,))
        &&& forall|l: u128, a: String, b: String|
            #![trigger self.lid_text.ensures((l,), a), self.lid_text.ensures((l,), b)]
            self.lid_text.ensures((l,), a) && self.lid_text.ensures((l,), b) ==> a@ == b@
    }

    /// `k` is a key of the anchor's value.
    pub open spec fn is_dictionary_key(
        &self,
        lobe_id: u16,
        name: Seq<char>,
        value: Seq<char>,
        k: Seq<u8>,
    ) -> bool {
        exists|n: &str, v: &str, r: Vec<u8>|
            n@ == name && v@ == value && r@ == k && #[trigger] self.dictionary_key.ensures(
                (lobe_id, n, v),
                r,
            )
    }

    /// The key of an anchor's value.
    pub open spec fn dictionary_key_of(
        &self,
        lobe_id: u16,
        name: Seq<char>,
        value: Seq<char>,
    ) -> Seq<u8> {
        choose|k: Seq<u8>| self.is_dictionary_key(lobe_id, name, value, k)
    }

    /// `k` is a spatial key of the place.
    pub open spec fn is_spatial_key(&self, p: Place, k: Seq<u8>) -> bool {
        exists|r: Vec<u8>| r@ == k && #[trigger] self.spatial_key.ensures((p,), r)
    }

    /// The spatial key of a place.
    pub open spec fn spatial_key_of(&self, p: Place) -> Seq<u8> {
        choose|k: Seq<u8>| self.is_spatial_key(p, k)
    }

    /// `h` is a hash in the key.
    pub open spec fn is_gravity_hash(&self, k: Seq<u8>, h: u64) -> bool {
        exists|s: &[u8]| s@ == k && #[trigger] self.gravity_hash.ensures((s,), h)
    }

    /// The hash in a spatial key.
    pub open spec fn gravity_hash_of(&self, k: Seq<u8>) -> u64 {
        choose|h: u64| self.is_gravity_hash(k, h)
    }

    /// `k` is the identity in bytes.
    pub open spec fn is_lid_bytes(&self, lid: u128, k: Seq<u8>) -> bool {
        exists|r: Vec<u8>| r@ == k && #[trigger] self.lid_bytes.ensures((lid,), r)
    }

    /// An identity in bytes.
    pub open spec fn lid_bytes_of(&self, lid: u128) -> Seq<u8> {
        choose|k: Seq<u8>| self.is_lid_bytes(lid, k)
    }

    /// `lid` is an identity of the bytes.
    pub open spec fn is_lid(&self, k: Seq<u8>, lid: u128) -> bool {
        exists|s: &[u8]| s@ == k && #[trigger] self.lid_from.ensures((s,), lid)
    }

    /// The identity that the bytes are.
    pub open spec fn lid_of(&self, k: Seq<u8>) -> u128 {
        choose|lid: u128| self.is_lid(k, lid)
    }

    /// `s` is a text of the identity.
    pub open spec fn is_lid_text(&self, lid: u128, s: Seq<char>) -> bool {
        exists|r: String| r@ == s && #[trigger] self.lid_text.ensures((lid,), r)
    }

    /// The text of an identity.
    pub open spec fn lid_text_of(&self, lid: u128) -> Seq<char> {
        choose|s: Seq<char>| self.is_lid_text(lid, s)
    }

    /// The key of an anchor's value.
    pub fn make_dictionary_key(&self, lobe_id: u16, name: &str, value: &str) -> (r: Vec<u8>)
        requires
            self.sound(),
        ensures
            r@ == self.dictionary_key_of(lobe_id, name@, value@),
    {
        let r = (self.dictionary_key)(lobe_id, name, value);
        assert(self.is_dictionary_key(lobe_id, name@, value@, r@));
        r
    }

    /// The spatial key of a place.
    pub fn make_spatial_key(&self, p: Place) -> (r: Vec<u8>)
        requires
            self.sound(),
        ensures
            r@ == self.spatial_key_of(p),
    {
        let r = (self.spatial_key)(p);
        assert(self.is_spatial_key(p, r@));
        r
    }

    /// The hash in a spatial key.
    pub fn read_gravity_hash(&self, k: &[u8]) -> (r: u64)
        requires
            self.sound(),
        ensures
            r == self.gravity_hash_of(k@),
    {
        let r: u64 = (self.gravity_hash)(k);
        assert(self.is_gravity_hash(k@, r));
        r
    }

    /// An identity in bytes.
    pub fn make_lid_bytes(&self, lid: u128) -> (r: Vec<u8>)
        requires
            self.sound(),
        ensures
            r@ == self.lid_bytes_of(lid),
    {
        let r = (self.lid_bytes)(lid);
        assert(self.is_lid_bytes(lid, r@));
        r
    }

    /// The identity that the bytes are.
    pub fn read_lid(&self, k: &[u8]) -> (r: u128)
        requires
            self.sound(),
        ensures
            r == self.lid_of(k@),
    {
        let r: u128 = (self.lid_from)(k);
        assert(self.is_lid(k@, r));
        r
    }

    /// The text of an identity.
    pub fn show_lid(&self, lid: u128) -> (r: String)
        requires
            self.sound(),
        ensures
            r@ == self.lid_text_of(lid),
    {
        let r = (self.lid_text)(lid);
        assert(self.is_lid_text(lid, r@));
        r
    }
}

/// The spatial key that an identity leads to: itself where it has the full
/// length, filled up with zeros where it has the short one.
pub open spec fn full_key(k: Seq<u8>) -> Option<Seq<u8>> {
    if k.len() == SPATIAL_KEY_SIZE {
        Some(k)
    } else if k.len() == SHORT_KEY_SIZE {
        Some(k + Seq::new((SPATIAL_KEY_SIZE - SHORT_KEY_SIZE) as nat, |i: int| 0u8))
    } else {
        None
    }
}

/// The spatial key that an identity leads to; `problem` tells of a key of
/// another length.
pub fn stored_key(k: &[u8], problem: &str) -> (r: Result<Vec<u8>, XyzError>)
    ensures
        match full_key(k@) {
            Some(f) => r matches Ok(v) && v@ == f,
            None => r matches Err(XyzError::Internal(m)) && m@ == problem@,
        },
{
    if k.len() != SPATIAL_KEY_SIZE && k.len() != SHORT_KEY_SIZE {
        return Err(XyzError::Internal(problem.to_owned()));
    }
    let mut r = bytes::sub_bytes(k, 0, k.len());
    assert(r@ =~= k@);
    while r.len() < SPATIAL_KEY_SIZE
        invariant
            k@.len() <= r@.len() <= SPATIAL_KEY_SIZE,
            forall|i: int| 0 <= i < k@.len() ==> r@[i] == k@[i],
            forall|i: int| k@.len() <= i < r@.len() ==> r@[i] == 0,
        decreases SPATIAL_KEY_SIZE - r@.len(),
    {
        r.push(0);
    }
    proof {
        if k@.len() == SPATIAL_KEY_SIZE {
            assert(r@ =~= k@);
        } else {
            assert(r@ =~= full_key(k@)->Some_0);
        }
    }
    Ok(r)
}

/// The lobe in a spatial key.
pub open spec fn lobe_of(k: Seq<u8>) -> u16 {
    bytes::from_be16(k[0], k[1])
}

/// The satellite in a spatial key.
pub open spec fn satellite_of(k: Seq<u8>) -> u16 {
    bytes::from_be16(k[8], k[9])
}

/// The lobe in a spatial key.
pub fn key_lobe(k: &[u8]) -> (r: u16)
    requires
        k@.len() == SPATIAL_KEY_SIZE,
    ensures
        r == lobe_of(k@),
{
    bytes::read_be16(k, 0)
}

/// The satellite in a spatial key.
pub fn key_satellite(k: &[u8]) -> (r: u16)
    requires
        k@.len() == SPATIAL_KEY_SIZE,
    ensures
        r == satellite_of(k@),
{
    bytes::read_be16(k, 8)
}

impl<
    D: Fn(u16, &str, &str) -> Vec<u8>,
    S: Fn(Place) -> Vec<u8>,
    G: Fn(&[u8]) -> u64,
    B: Fn(u128) -> Vec<u8>,
    F: Fn(&[u8]) -> u128,
    T: Fn(u128) -> String,
> Layout<D, S, G, B, F, T> {
    /// Keys and identities are laid out as the storage layer has it.
    pub proof fn law_layout_is_handed_in(
        &self,
        lobe_id: u16,
        name: &str,
        value: &str,
        entry: Vec<u8>,
        p: Place,
        key: Vec<u8>,
        k: &[u8],
        h: u64,
        lid: u128,
        b: Vec<u8>,
        from: u128,
        t: String,
    )
        requires
            self.sound(),
            self.dictionary_key.ensures((lobe_id, name, value), entry),
            self.spatial_key.ensures((p,), key),
            self.gravity_hash.ensures((k,), h),
            self.lid_bytes.ensures((lid,), b),
            self.lid_from.ensures((k,), from),
            self.lid_text.ensures((lid,), t),
        ensures
            self.dictionary_key_of(lobe_id, name@, value@) == entry@,
            self.spatial_key_of(p) == key@,
            self.gravity_hash_of(k@) == h,
            self.lid_bytes_of(lid) == b@,
            self.lid_of(k@) == from,
            self.lid_text_of(lid) == t@,
    {
        assert(self.is_dictionary_key(lobe_id, name@, value@, entry@));
        assert(self.is_spatial_key(p, key@));
        assert(self.is_gravity_hash(k@, h));
        assert(self.is_lid_bytes(lid, b@));
        assert(self.is_lid(k@, from));
        assert(self.is_lid_text(lid, t@));
    }
}

/// An identity leads to a key of the full length that begins with what is stored, the
/// rest being zeros. One of another length than a full or a short key leads nowhere.
pub proof fn law_full_key_begins_as_stored(k: Seq<u8>)
    ensures
        full_key(k) is Some <==> k.len() == 22 || k.len() == 10,
        full_key(k) matches Some(f) ==> f.len() == 22 && f.take(k.len() as int) == k && forall|
            i: int,
        |
            k.len() <= i < 22 ==> #[trigger] f[i] == 0,
{
    match full_key(k) {
        Some(f) => {
            assert(f.take(k.len() as int) =~= k);
        },
        None => {},
    }
}

} // verus!
