//! How a lobe derives the hash that places its records.
//!
//! Placement and the equality fast path of a scan resolve the hash through one
//! [`GravitySpec`], so the two cannot disagree.

use crate::bytes;
use crate::canon;
use crate::canon::Canon;
use crate::record;
use crate::record::{Fields, FilterOp};
use crate::sorted_map::SortedMap;
use crate::text;
use crate::value::{Value, ValueV};
use crate::wire;
use vstd::prelude::*;

verus! {

/// The format of a slot whose lobe hashes values alone.
pub const SPEC_FORMAT: u8 = 0x03;

/// The format of a slot with a whole specification whose records were placed
/// by name and value.
pub const LEGACY_SPEC_FORMAT: u8 = 0x02;

/// The format of a slot that holds a bare field name, from the same time.
pub const LEGACY_FIELD_FORMAT: u8 = 0x01;

/// A transform of a value before it is hashed.
#[derive(Clone, Copy, Debug, PartialEq, Eq, Structural)]
pub enum Transform {
    /// Fold the case.
    Lower,
    /// Strip the white space around it.
    Trim,
}

impl Transform {
    /// `r` is what the transform makes of `s`.
    pub open spec fn gives(self, s: Seq<char>, r: Seq<char>) -> bool {
        match self {
            Transform::Lower => r == text::lowercase(s),
            Transform::Trim => text::is_trimmed(s, r),
        }
    }

    /// What the transform makes of `s`.
    pub open spec fn of(self, s: Seq<char>) -> Seq<char> {
        choose|r: Seq<char>| self.gives(s, r)
    }

    /// Applies the transform to a text.
    pub fn apply(&self, s: &str) -> (r: String)
        ensures
            self.gives(s@, r@),
            r@ == self.of(s@),
    {
        let r = match self {
            Transform::Lower => text::to_lower(s),
            Transform::Trim => text::trim(s),
        };
        proof {
            assert(self.gives(s@, r@));
            if *self == Transform::Trim {
                text::lemma_trimmed_unique(s@, r@, self.of(s@));
            }
        }
        r
    }
}

/// How a lobe computes its gravity hash.
#[derive(Clone, Debug, PartialEq, Eq)]
pub enum GravitySpec {
    /// One field, hashed as it is.
    Raw(String),
    /// One field, transformed before it is hashed.
    Normalized(String, Transform),
    /// An ordered tuple of fields.
    Composite(Vec<String>),
}

/// What a [`GravitySpec`] says.
pub enum GravitySpecV {
    Raw(Seq<char>),
    Normalized(Seq<char>, Transform),
    Composite(Seq<Seq<char>>),
}

impl View for GravitySpec {
    type V = GravitySpecV;

    open spec fn view(&self) -> GravitySpecV {
        match self {
            GravitySpec::Raw(f) => GravitySpecV::Raw(f@),
            GravitySpec::Normalized(f, t) => GravitySpecV::Normalized(f@, *t),
            GravitySpec::Composite(fs) => GravitySpecV::Composite(text::names(fs@)),
        }
    }
}

/// What an optional specification says.
pub open spec fn opt_spec(s: Option<GravitySpec>) -> Option<GravitySpecV> {
    match s {
        Some(x) => Some(x@),
        None => None,
    }
}

/// The fields that a specification reads.
pub open spec fn spec_fields(s: GravitySpecV) -> Seq<Seq<char>> {
    match s {
        GravitySpecV::Raw(f) => seq![f],
        GravitySpecV::Normalized(f, _) => seq![f],
        GravitySpecV::Composite(fs) => fs,
    }
}

/// Every field that the specification reads is among `fields`.
pub open spec fn complete(s: GravitySpecV, fields: Map<Seq<char>, ValueV>) -> bool {
    forall|i: int|
        0 <= i < spec_fields(s).len() ==> fields.contains_key(#[trigger] spec_fields(s)[i])
}

/// The values that a specification feeds into the hash.
pub open spec fn hash_values<H: Fn(&str) -> u64, R: Fn(&Value) -> String>(
    canon: Canon<H, R>,
    s: GravitySpecV,
    fields: Map<Seq<char>, ValueV>,
) -> Seq<ValueV> {
    match s {
        GravitySpecV::Raw(f) => seq![fields[f]],
        GravitySpecV::Normalized(f, t) => seq![
            ValueV::Text(t.of(canon.anchor_text(fields[f]))),
        ],
        GravitySpecV::Composite(fs) => Seq::new(fs.len(), |i: int| fields[fs[i]]),
    }
}

/// The hash of a record under a specification, if it has all the fields.
pub open spec fn spec_hash<H: Fn(&str) -> u64, R: Fn(&Value) -> String>(
    canon: Canon<H, R>,
    s: GravitySpecV,
    fields: Map<Seq<char>, ValueV>,
) -> Option<u64> {
    if complete(s, fields) {
        Some(canon::gravity_hash(canon, hash_values(canon, s, fields)))
    } else {
        None
    }
}

/// The predicates name `field` exactly once, at `i`, and with an equality.
pub open spec fn pins_at(
    filters: Seq<(Seq<char>, FilterOp, ValueV)>,
    field: Seq<char>,
    i: int,
) -> bool {
    &&& 0 <= i < filters.len()
    &&& filters[i].0 == field
    &&& filters[i].1 == FilterOp::Eq
    &&& forall|j: int| 0 <= j < filters.len() && j != i ==> (#[trigger] filters[j]).0 != field
}

/// The predicates pin `field` to one value.
pub open spec fn pinned(
    filters: Seq<(Seq<char>, FilterOp, ValueV)>,
    field: Seq<char>,
) -> bool {
    exists|i: int| #[trigger] pins_at(filters, field, i)
}

/// The value that the predicates pin `field` to.
pub open spec fn pinned_value(
    filters: Seq<(Seq<char>, FilterOp, ValueV)>,
    field: Seq<char>,
) -> ValueV {
    filters[choose|i: int| #[trigger] pins_at(filters, field, i)].2
}

/// The fields that the predicates pin, each with its value.
pub open spec fn pinned_fields(
    s: GravitySpecV,
    filters: Seq<(Seq<char>, FilterOp, ValueV)>,
) -> Map<Seq<char>, ValueV> {
    Map::new(
        |f: Seq<char>| spec_fields(s).contains(f) && pinned(filters, f),
        |f: Seq<char>| pinned_value(filters, f),
    )
}

/// The hash that the predicates pin a scan to: that of a record with the
/// pinned values, if every gravity field is pinned.
pub open spec fn pinned_hash<H: Fn(&str) -> u64, R: Fn(&Value) -> String>(
    canon: Canon<H, R>,
    s: GravitySpecV,
    filters: Seq<(Seq<char>, FilterOp, ValueV)>,
) -> Option<u64> {
    spec_hash(canon, s, pinned_fields(s, filters))
}

/// The number of a transform on the wire.
pub open spec fn transform_tag(t: Transform) -> nat {
    match t {
        Transform::Lower => 0,
        Transform::Trim => 1,
    }
}

/// A specification on the wire: the number of its variant, then its parts.
pub open spec fn packed_spec(s: GravitySpecV) -> Seq<u8> {
    match s {
        GravitySpecV::Raw(f) => wire::varint(0) + wire::packed_text(f),
        GravitySpecV::Normalized(f, t) => wire::varint(1) + (wire::packed_text(f) + wire::varint(
            transform_tag(t),
        )),
        GravitySpecV::Composite(fs) => wire::varint(2) + wire::packed_list(fs),
    }
}

/// The transform of the number at the front of `b`.
pub open spec fn taken_transform(b: Seq<u8>) -> Option<Transform> {
    match wire::taken_u32(b) {
        Some((0u32, _)) => Some(Transform::Lower),
        Some((1u32, _)) => Some(Transform::Trim),
        _ => None,
    }
}

/// The specification at the front of `b`.
pub open spec fn taken_spec(b: Seq<u8>) -> Option<GravitySpecV> {
    match wire::taken_u32(b) {
        Some((0u32, rest)) => match wire::taken_text(rest) {
            Some((f, _)) => Some(GravitySpecV::Raw(f)),
            None => None,
        },
        Some((1u32, rest)) => match wire::taken_text(rest) {
            Some((f, after)) => match taken_transform(after) {
                Some(t) => Some(GravitySpecV::Normalized(f, t)),
                None => None,
            },
            None => None,
        },
        Some((2u32, rest)) => match wire::taken_list(rest) {
            Some((fs, _)) => Some(GravitySpecV::Composite(fs)),
            None => None,
        },
        _ => None,
    }
}

/// A slot's bytes: the magic, the format and the payload.
pub open spec fn enveloped(magic: [u8; 2], format: u8, payload: Seq<u8>) -> Seq<u8> {
    seq![magic[0], magic[1], format] + payload
}

/// The bytes begin with the magic and have a format.
pub open spec fn has_envelope(magic: [u8; 2], b: Seq<u8>) -> bool {
    b.len() >= 3 && b[0] == magic[0] && b[1] == magic[1]
}

/// The bare field name at the front of `b`, as a specification.
pub open spec fn taken_legacy(b: Seq<u8>) -> Option<GravitySpecV> {
    match wire::taken_text(b) {
        Some((f, _)) => Some(GravitySpecV::Raw(f)),
        None => None,
    }
}

/// The specification in a slot.
pub open spec fn decoded(magic: [u8; 2], b: Seq<u8>) -> Option<GravitySpecV> {
    if !has_envelope(magic, b) {
        None
    } else if b[2] == SPEC_FORMAT || b[2] == LEGACY_SPEC_FORMAT {
        taken_spec(b.skip(3))
    } else if b[2] == LEGACY_FIELD_FORMAT {
        taken_legacy(b.skip(3))
    } else {
        None
    }
}

/// Puts magic, format and payload into one slot value.
pub fn envelope(magic: [u8; 2], format: u8, payload: &[u8]) -> (r: Vec<u8>)
    ensures
        r@ == enveloped(magic, format, payload@),
{
    let mut r: Vec<u8> = Vec::new();
    r.push(magic[0]);
    r.push(magic[1]);
    r.push(format);
    bytes::push_all(&mut r, payload);
    assert(r@ =~= enveloped(magic, format, payload@));
    r
}

/// Whether the bytes begin with the magic and have a format.
pub fn is_enveloped(magic: [u8; 2], b: &[u8]) -> (r: bool)
    ensures
        r == has_envelope(magic, b@),
{
    b.len() >= 3 && b[0] == magic[0] && b[1] == magic[1]
}

/// Writes a specification without its envelope.
fn pack_spec(s: &GravitySpec) -> (r: Result<Vec<u8>, postcard::Error>)
    ensures
        r matches Ok(b) && b@ == packed_spec(s@),
{
    match s {
        GravitySpec::Raw(f) => {
            let mut out = wire::pack_u32(0)?;
            let body = wire::pack_text(f.as_str())?;
            bytes::push_all(&mut out, body.as_slice());
            Ok(out)
        },
        GravitySpec::Normalized(f, t) => {
            let mut out = wire::pack_u32(1)?;
            let mut body = wire::pack_text(f.as_str())?;
            let tag = wire::pack_u32(
                match t {
                    Transform::Lower => 0,
                    Transform::Trim => 1,
                },
            )?;
            bytes::push_all(&mut body, tag.as_slice());
            bytes::push_all(&mut out, body.as_slice());
            Ok(out)
        },
        GravitySpec::Composite(fs) => {
            let mut out = wire::pack_u32(2)?;
            let body = wire::pack_list(fs)?;
            bytes::push_all(&mut out, body.as_slice());
            Ok(out)
        },
    }
}

/// Reads a transform.
fn take_transform(b: &[u8]) -> (r: Option<Transform>)
    ensures
        r == taken_transform(b@),
        forall|t: Transform|
            b@ == #[trigger] wire::varint(transform_tag(t)) ==> r == Some(t),
{
    let got = wire::take_u32(b);
    proof {
        assert forall|t: Transform| b@ == #[trigger] wire::varint(transform_tag(t)) implies (
        got matches Some((n, _)) && n == transform_tag(t)) by {
            let n = transform_tag(t) as u32;
            assert(b@ =~= wire::varint(n as nat) + Seq::<u8>::empty());
        }
    }
    match got {
        Some((0, _)) => Some(Transform::Lower),
        Some((1, _)) => Some(Transform::Trim),
        _ => None,
    }
}

/// Reads a specification without its envelope.
fn take_spec(b: &[u8]) -> (r: Option<GravitySpec>)
    ensures
        opt_spec(r) == taken_spec(b@),
        forall|s: GravitySpecV| b@ == #[trigger] packed_spec(s) ==> opt_spec(r) == Some(s),
{
    let got = wire::take_u32(b);
    match got {
        Some((0, rest)) => {
            let body = wire::take_text(rest);
            proof {
                assert forall|s: GravitySpecV| b@ == #[trigger] packed_spec(s) implies (s matches
                    GravitySpecV::Raw(f) && body matches Some((g, _)) && g@ == f) by {
                    lemma_tag(b@, s);
                    if let GravitySpecV::Raw(f) = s {
                        assert(rest@ =~= wire::packed_text(f) + Seq::<u8>::empty());
                    }
                }
            }
            match body {
                Some((f, _)) => Some(GravitySpec::Raw(f)),
                None => None,
            }
        },
        Some((1, rest)) => {
            let body = wire::take_text(rest);
            proof {
                assert forall|s: GravitySpecV| b@ == #[trigger] packed_spec(s) implies (s matches
                    GravitySpecV::Normalized(f, t) && body matches Some((g, left)) && g@ == f
                    && left@ == wire::varint(transform_tag(t))) by {
                    lemma_tag(b@, s);
                    if let GravitySpecV::Normalized(f, t) = s {
                        assert(rest@ == wire::packed_text(f) + wire::varint(transform_tag(t)));
                    }
                }
            }
            match body {
                Some((f, after)) => match take_transform(after) {
                    Some(t) => Some(GravitySpec::Normalized(f, t)),
                    None => None,
                },
                None => None,
            }
        },
        Some((2, rest)) => {
            let body = wire::take_list(rest);
            proof {
                assert forall|s: GravitySpecV| b@ == #[trigger] packed_spec(s) implies (s matches
                    GravitySpecV::Composite(fs) && body matches Some((g, _)) && text::names(g@)
                    == fs) by {
                    lemma_tag(b@, s);
                    if let GravitySpecV::Composite(fs) = s {
                        assert(rest@ =~= wire::packed_list(fs) + Seq::<u8>::empty());
                    }
                }
            }
            match body {
                Some((fs, _)) => Some(GravitySpec::Composite(fs)),
                None => None,
            }
        },
        _ => {
            proof {
                assert forall|s: GravitySpecV| b@ == #[trigger] packed_spec(s) implies false by {
                    lemma_tag(b@, s);
                }
            }
            None
        },
    }
}

/// What a packed specification begins with.
proof fn lemma_tag(b: Seq<u8>, s: GravitySpecV)
    requires
        b == packed_spec(s),
    ensures
        s matches GravitySpecV::Raw(f) ==> b == wire::varint(0u32 as nat) + wire::packed_text(f),
        s matches GravitySpecV::Normalized(f, t) ==> b == wire::varint(1u32 as nat) + (
        wire::packed_text(f) + wire::varint(transform_tag(t))),
        s matches GravitySpecV::Composite(fs) ==> b == wire::varint(2u32 as nat)
            + wire::packed_list(fs),
{
}

/// The place of the only predicate on `field`, if it is an equality.
pub fn find_pin(filters: &[(String, FilterOp, Value)], field: &str) -> (r: Option<usize>)
    ensures
        match r {
            Some(i) => pins_at(record::predicates_view(filters@), field@, i as int),
            None => !pinned(record::predicates_view(filters@), field@),
        },
{
    let ghost v = record::predicates_view(filters@);
    let mut found: Option<usize> = None;
    let mut i: usize = 0;
    while i < filters.len()
        invariant
            i <= filters@.len(),
            v == record::predicates_view(filters@),
            match found {
                Some(k) => k < i && v[k as int].0 == field@ && v[k as int].1 == FilterOp::Eq
                    && forall|j: int| 0 <= j < i && j != k ==> (#[trigger] v[j]).0 != field@,
                None => forall|j: int| 0 <= j < i ==> (#[trigger] v[j]).0 != field@,
            },
        decreases filters@.len() - i,
    {
        let p = &filters[i];
        assert(v[i as int] == record::predicate_view(*p));
        if bytes::str_equal(p.0.as_str(), field) {
            if p.1 != FilterOp::Eq || found.is_some() {
                proof {
                    if pinned(v, field@) {
                        let k = choose|k: int| #[trigger] pins_at(v, field@, k);
                        assert(v[i as int].0 == field@);
                        assert(k == i as int);
                        if let Some(m) = found {
                            assert(v[m as int].0 == field@);
                        }
                    }
                }
                return None;
            }
            found = Some(i);
        }
        i = i + 1;
    }
    proof {
        match found {
            Some(k) => {
                assert(pins_at(v, field@, k as int));
            },
            None => {
                if pinned(v, field@) {
                    let k = choose|k: int| #[trigger] pins_at(v, field@, k);
                    assert(v[k].0 == field@);
                }
            },
        }
    }
    found
}

impl GravitySpec {
    /// The specification that a bare field name means.
    pub fn from_legacy_field(name: &str) -> (r: Self)
        ensures
            r@ == GravitySpecV::Raw(name@),
    {
        GravitySpec::Raw(name.to_owned())
    }

    /// Writes the specification for its dictionary slot, in the current
    /// format.
    pub fn encode(&self, magic: [u8; 2]) -> (r: Result<Vec<u8>, postcard::Error>)
        ensures
            r matches Ok(b) && b@ == enveloped(magic, SPEC_FORMAT, packed_spec(self@)),
    {
        let payload = pack_spec(self)?;
        Ok(envelope(magic, SPEC_FORMAT, payload.as_slice()))
    }

    /// Reads a dictionary slot: the current format, the older one with the
    /// same payload, and the oldest with a bare field name. An envelope that is
    /// none of these holds no specification. What [`GravitySpec::encode`] wrote
    /// is read back.
    pub fn decode(magic: [u8; 2], b: &[u8]) -> (r: Option<GravitySpec>)
        ensures
            opt_spec(r) == decoded(magic, b@),
            forall|s: GravitySpecV, format: u8|
                b@ == #[trigger] enveloped(magic, format, packed_spec(s)) && (format == SPEC_FORMAT
                    || format == LEGACY_SPEC_FORMAT) ==> opt_spec(r) == Some(s),
            forall|f: Seq<char>|
                b@ == #[trigger] enveloped(magic, LEGACY_FIELD_FORMAT, wire::packed_text(f))
                    ==> opt_spec(r) == Some(GravitySpecV::Raw(f)),
    {
        if !is_enveloped(magic, b) {
            return None;
        }
        let payload = bytes::sub_bytes(b, 3, b.len());
        assert(payload@ =~= b@.skip(3));
        proof {
            assert forall|p: Seq<u8>, format: u8|
                b@ == #[trigger] enveloped(magic, format, p) implies b@[2] == format && payload@
                == p by {
                assert(payload@ =~= p);
            }
        }
        if b[2] == SPEC_FORMAT || b[2] == LEGACY_SPEC_FORMAT {
            take_spec(payload.as_slice())
        } else if b[2] == LEGACY_FIELD_FORMAT {
            let got = wire::take_text(payload.as_slice());
            proof {
                assert forall|f: Seq<char>|
                    b@ == #[trigger] enveloped(
                        magic,
                        LEGACY_FIELD_FORMAT,
                        wire::packed_text(f),
                    ) implies (got matches Some((g, _)) && g@ == f) by {
                    assert(payload@ =~= wire::packed_text(f) + Seq::<u8>::empty());
                }
            }
            match got {
                Some((f, _)) => Some(GravitySpec::Raw(f)),
                None => None,
            }
        } else {
            None
        }
    }

    /// Whether a slot's records were placed by name and value, so that they
    /// must be placed anew before the fast path finds them.
    pub fn slot_is_pre_d1(magic: [u8; 2], b: &[u8]) -> (r: bool)
        ensures
            r == (has_envelope(magic, b@) && (b@[2] == LEGACY_FIELD_FORMAT || b@[2]
                == LEGACY_SPEC_FORMAT)),
    {
        is_enveloped(magic, b) && (b[2] == LEGACY_FIELD_FORMAT || b[2] == LEGACY_SPEC_FORMAT)
    }

    /// The fields that the specification reads.
    pub fn fields(&self) -> (r: Vec<&str>)
        ensures
            r@.len() == spec_fields(self@).len(),
            forall|i: int| 0 <= i < r@.len() ==> (#[trigger] r@[i])@ == spec_fields(self@)[i],
    {
        let mut out: Vec<&str> = Vec::new();
        match self {
            GravitySpec::Raw(f) => {
                out.push(f.as_str());
            },
            GravitySpec::Normalized(f, _) => {
                out.push(f.as_str());
            },
            GravitySpec::Composite(fs) => {
                let mut i: usize = 0;
                while i < fs.len()
                    invariant
                        i <= fs@.len(),
                        out@.len() == i,
                        forall|j: int|
                            0 <= j < i ==> (#[trigger] out@[j])@ == text::names(fs@)[j],
                    decreases fs@.len() - i,
                {
                    out.push(fs[i].as_str());
                    i = i + 1;
                }
            },
        }
        out
    }

    /// The named values that the specification feeds into the hash, if all its
    /// fields are there.
    fn hash_pairs<H: Fn(&str) -> u64, R: Fn(&Value) -> String>(
        &self,
        canon: &Canon<H, R>,
        fields: &Fields,
    ) -> (r: Option<Vec<(String, Value)>>)
        requires
            canon.sound(),
        ensures
            match r {
                Some(p) => complete(self@, record::fields_view(fields@)) && canon::pair_values(p@)
                    == hash_values(*canon, self@, record::fields_view(fields@)),
                None => !complete(self@, record::fields_view(fields@)),
            },
    {
        let ghost fv = record::fields_view(fields@);
        match self {
            GravitySpec::Raw(field) => {
                assert(spec_fields(self@)[0] == field@);
                let v = match fields.get(field.as_str()) {
                    Some(v) => v.clone_value(),
                    None => {
                        return None;
                    },
                };
                let mut p: Vec<(String, Value)> = Vec::new();
                p.push((field.clone(), v));
                assert(canon::pair_values(p@) =~= hash_values(*canon, self@, fv));
                Some(p)
            },
            GravitySpec::Normalized(field, transform) => {
                assert(spec_fields(self@)[0] == field@);
                let v = match fields.get(field.as_str()) {
                    Some(v) => v,
                    None => {
                        return None;
                    },
                };
                let normalized = transform.apply(canon.value_to_anchor_string(v).as_str());
                let mut p: Vec<(String, Value)> = Vec::new();
                p.push((field.clone(), Value::Text(normalized)));
                assert(canon::pair_values(p@) =~= hash_values(*canon, self@, fv));
                Some(p)
            },
            GravitySpec::Composite(components) => {
                let mut p: Vec<(String, Value)> = Vec::new();
                let mut i: usize = 0;
                while i < components.len()
                    invariant
                        i <= components@.len(),
                        p@.len() == i,
                        fv == record::fields_view(fields@),
                        self@ == GravitySpecV::Composite(text::names(components@)),
                        forall|j: int|
                            0 <= j < i ==> fv.contains_key(#[trigger] text::names(components@)[j]),
                        forall|j: int|
                            0 <= j < i ==> (#[trigger] p@[j]).1@ == fv[text::names(
                                components@,
                            )[j]],
                    decreases components@.len() - i,
                {
                    assert(text::names(components@)[i as int] == components@[i as int]@);
                    match fields.get(components[i].as_str()) {
                        Some(v) => {
                            p.push((components[i].clone(), v.clone_value()));
                        },
                        None => {
                            assert(!fv.contains_key(spec_fields(self@)[i as int]));
                            return None;
                        },
                    }
                    i = i + 1;
                }
                assert(canon::pair_values(p@) =~= hash_values(*canon, self@, fv));
                Some(p)
            },
        }
    }

    /// The hash that places a record with these fields, or `None` where a
    /// gravity field is missing.
    pub fn compute_hash<H: Fn(&str) -> u64, R: Fn(&Value) -> String>(
        &self,
        canon: &Canon<H, R>,
        fields: &Fields,
    ) -> (r: Option<u64>)
        requires
            canon.sound(),
        ensures
            r == spec_hash(*canon, self@, record::fields_view(fields@)),
    {
        match self.hash_pairs(canon, fields) {
            Some(p) => Some(canon::compute_gravity_hash(canon, p.as_slice())),
            None => None,
        }
    }

    /// The hash that the predicates pin a scan to, or `None` where some
    /// gravity field has no predicate, more than one, or one that is not an
    /// equality.
    #[verifier::loop_isolation(false)]
    pub fn pinned_gravity_hash<H: Fn(&str) -> u64, R: Fn(&Value) -> String>(
        &self,
        canon: &Canon<H, R>,
        filters: &[(String, FilterOp, Value)],
    ) -> (r: Option<u64>)
        requires
            canon.sound(),
        ensures
            r == pinned_hash(*canon, self@, record::predicates_view(filters@)),
    {
        let ghost fv = record::predicates_view(filters@);
        let ghost wanted = pinned_fields(self@, fv);
        let names = self.fields();
        let mut vals: Fields = SortedMap::new();
        let mut i: usize = 0;
        while i < names.len()
            invariant
                i <= names@.len(),
                forall|f: Seq<char>| #[trigger]
                    record::fields_view(vals@).contains_key(f) <==> exists|j: int|
                        0 <= j < i && #[trigger] spec_fields(self@)[j] == f,
                forall|f: Seq<char>| #[trigger]
                    record::fields_view(vals@).contains_key(f) ==> wanted.contains_key(f)
                        && record::fields_view(vals@)[f] == wanted[f],
            decreases names@.len() - i,
        {
            let name = names[i];
            assert(spec_fields(self@)[i as int] == name@);
            match find_pin(filters, name) {
                Some(k) => {
                    let v = filters[k].2.clone_value();
                    let ghost before = record::fields_view(vals@);
                    vals.insert(name.to_owned(), v);
                    proof {
                        assert(record::fields_view(vals@) =~= before.insert(name@, v@));
                        let c = choose|c: int| #[trigger] pins_at(fv, name@, c);
                        assert(pins_at(fv, name@, k as int));
                        assert(fv[k as int].0 == name@);
                        assert(c == k as int);
                        assert(fv[k as int] == record::predicate_view(filters@[k as int]));
                        assert(spec_fields(self@).contains(name@));
                        assert forall|f: Seq<char>| #[trigger]
                            record::fields_view(vals@).contains_key(f) implies exists|j: int|
                            0 <= j < i + 1 && #[trigger] spec_fields(self@)[j] == f by {
                            if f == name@ {
                                assert(spec_fields(self@)[i as int] == f);
                            } else {
                                assert(before.contains_key(f));
                            }
                        }
                        assert forall|f: Seq<char>, j: int|
                            0 <= j < i + 1 && #[trigger] spec_fields(self@)[j]
                                == f implies #[trigger] record::fields_view(
                            vals@,
                        ).contains_key(f) by {
                            if j < i {
                                assert(before.contains_key(f));
                            }
                        }
                    }
                },
                None => {
                    assert(!wanted.contains_key(spec_fields(self@)[i as int]));
                    return None;
                },
            }
            i = i + 1;
        }
        proof {
            let got = record::fields_view(vals@);
            assert forall|f: Seq<char>|
                #![trigger got.dom().contains(f)]
                #![trigger wanted.dom().contains(f)]
                got.dom().contains(f) == wanted.dom().contains(f) by {
                if wanted.dom().contains(f) {
                    let j = choose|j: int|
                        0 <= j < spec_fields(self@).len() && spec_fields(self@)[j] == f;
                    assert(spec_fields(self@)[j] == f);
                    assert(got.contains_key(f));
                } else if got.dom().contains(f) {
                    assert(got.contains_key(f));
                }
            }
            assert(got.dom() =~= wanted.dom());
            assert forall|f: Seq<char>| got.dom().contains(f) implies got[f] == wanted[f] by {
                assert(got.contains_key(f));
            }
            assert(got =~= wanted);
        }
        self.compute_hash(canon, &vals)
    }
}

/// A scan pinned to the values of a stored record looks in the bucket that
/// the record was placed in: where the predicates pin every gravity field to
/// the record's own value, both sides have the same hash.
pub proof fn law_query_hash_is_write_hash<H: Fn(&str) -> u64, R: Fn(&Value) -> String>(
    canon: Canon<H, R>,
    s: GravitySpecV,
    stored: Map<Seq<char>, ValueV>,
    filters: Seq<(Seq<char>, FilterOp, ValueV)>,
)
    requires
        forall|i: int|
            0 <= i < spec_fields(s).len() ==> pinned(filters, #[trigger] spec_fields(s)[i])
                && stored.contains_key(spec_fields(s)[i]) && stored[spec_fields(s)[i]]
                == pinned_value(filters, spec_fields(s)[i]),
    ensures
        pinned_hash(canon, s, filters) is Some,
        pinned_hash(canon, s, filters) == spec_hash(canon, s, stored),
{
    let p = pinned_fields(s, filters);
    assert(complete(s, p)) by {
        assert forall|i: int| 0 <= i < spec_fields(s).len() implies p.contains_key(
            #[trigger] spec_fields(s)[i],
        ) by {
            assert(spec_fields(s).contains(spec_fields(s)[i]));
        }
    }
    assert(complete(s, stored));
    match s {
        GravitySpecV::Raw(f) => {
            assert(spec_fields(s)[0] == f);
            assert(p.contains_key(f));
        },
        GravitySpecV::Normalized(f, _) => {
            assert(spec_fields(s)[0] == f);
            assert(p.contains_key(f));
        },
        GravitySpecV::Composite(fs) => {
            assert forall|i: int| 0 <= i < fs.len() implies p[fs[i]] == stored[fs[i]] by {
                assert(spec_fields(s)[i] == fs[i]);
                assert(p.contains_key(fs[i]));
            }
        },
    }
    assert(hash_values(canon, s, p) =~= hash_values(canon, s, stored));
}

/// Two values that a transform makes equal share a bucket.
pub proof fn law_normalized_values_share_bucket<H: Fn(&str) -> u64, R: Fn(&Value) -> String>(
    canon: Canon<H, R>,
    field: Seq<char>,
    t: Transform,
    a: Map<Seq<char>, ValueV>,
    b: Map<Seq<char>, ValueV>,
)
    requires
        a.contains_key(field),
        b.contains_key(field),
        t.of(canon.anchor_text(a[field])) == t.of(canon.anchor_text(b[field])),
    ensures
        spec_hash(canon, GravitySpecV::Normalized(field, t), a) == spec_hash(
            canon,
            GravitySpecV::Normalized(field, t),
            b,
        ),
{
    let s = GravitySpecV::Normalized(field, t);
    assert(complete(s, a) && complete(s, b));
    assert(hash_values(canon, s, a) =~= hash_values(canon, s, b));
}

/// A record that lacks one component of a tuple is not placed by it.
pub proof fn law_partial_tuple_has_no_hash<H: Fn(&str) -> u64, R: Fn(&Value) -> String>(
    canon: Canon<H, R>,
    s: GravitySpecV,
    fields: Map<Seq<char>, ValueV>,
    i: int,
)
    requires
        0 <= i < spec_fields(s).len(),
        !fields.contains_key(spec_fields(s)[i]),
    ensures
        spec_hash(canon, s, fields) is None,
{
}

/// Under a specification of one field a record hashes as the canonical text of that
/// field does, or as what the transform makes of it; under one of several fields, as
/// their canonical texts in the declared order. It has no hash exactly where one of the
/// fields is missing.
pub proof fn law_specification_hashes_its_fields<
    H: Fn(&str) -> u64,
    R: Fn(&Value) -> String,
>(
    canon: Canon<H, R>,
    s: GravitySpecV,
    fields: Map<Seq<char>, ValueV>,
    t: &str,
    h: u64,
)
    requires
        canon.sound(),
        canon.hash.ensures((t,), h),
    ensures
        match s {
            GravitySpecV::Raw(f) => {
                &&& spec_hash(canon, s, fields) is Some <==> fields.contains_key(f)
                &&& fields.contains_key(f) && t@ == canon.anchor_text(fields[f]) ==> spec_hash(
                    canon,
                    s,
                    fields,
                ) == Some(h)
            },
            GravitySpecV::Normalized(f, Transform::Lower) => {
                &&& spec_hash(canon, s, fields) is Some <==> fields.contains_key(f)
                &&& fields.contains_key(f) && t@ == text::lowercase(canon.anchor_text(fields[f]))
                    ==> spec_hash(canon, s, fields) == Some(h)
            },
            GravitySpecV::Normalized(f, Transform::Trim) => {
                &&& spec_hash(canon, s, fields) is Some <==> fields.contains_key(f)
                &&& fields.contains_key(f) && text::is_trimmed(
                    canon.anchor_text(fields[f]),
                    t@,
                ) ==> spec_hash(canon, s, fields) == Some(h)
            },
            GravitySpecV::Composite(fs) => {
                &&& spec_hash(canon, s, fields) is Some <==> forall|i: int|
                    0 <= i < fs.len() ==> fields.contains_key(#[trigger] fs[i])
                &&& (forall|i: int| 0 <= i < fs.len() ==> fields.contains_key(#[trigger] fs[i]))
                    && t@ == text::joined(
                    fs.map_values(|f: Seq<char>| canon.anchor_text(fields[f])),
                    seq!['\0'],
                ) ==> spec_hash(canon, s, fields) == Some(h)
            },
        },
{
    assert(canon.hashes_to(t@, h));
    match s {
        GravitySpecV::Raw(f) => {
            assert(spec_fields(s)[0] == f);
            canon::law_single_value_hash(canon, fields[f]);
        },
        GravitySpecV::Normalized(f, tr) => {
            assert(spec_fields(s)[0] == f);
            let x = canon.anchor_text(fields[f]);
            canon::law_single_value_hash(canon, ValueV::Text(tr.of(x)));
            if fields.contains_key(f) && tr.gives(x, t@) {
                assert(tr.gives(x, tr.of(x)));
                if tr is Trim {
                    text::lemma_trimmed_unique(x, t@, tr.of(x));
                }
            }
        },
        GravitySpecV::Composite(fs) => {
            assert forall|i: int| 0 <= i < fs.len() implies spec_fields(s)[i] == #[trigger] fs[i] by {}
            if forall|i: int| 0 <= i < fs.len() ==> fields.contains_key(#[trigger] fs[i]) {
                assert(complete(s, fields));
            }
            let vals = hash_values(canon, s, fields);
            assert(canon::anchor_texts(canon, vals) =~= fs.map_values(
                |f: Seq<char>| canon.anchor_text(fields[f]),
            ));
        },
    }
}

/// The predicates pin a field to a value exactly where one of them asks that it equals
/// the value, and no other one is about that field.
pub proof fn law_pinned_is_asked_once(
    filters: Seq<(Seq<char>, FilterOp, ValueV)>,
    field: Seq<char>,
    i: int,
)
    requires
        0 <= i < filters.len(),
        filters[i].0 == field,
    ensures
        pinned(filters, field) <==> filters[i].1 is Eq && forall|j: int|
            0 <= j < filters.len() && j != i ==> (#[trigger] filters[j]).0 != field,
        pinned(filters, field) ==> pinned_value(filters, field) == filters[i].2,
{
    if filters[i].1 is Eq && forall|j: int|
        0 <= j < filters.len() && j != i ==> (#[trigger] filters[j]).0 != field {
        assert(pins_at(filters, field, i));
    }
    if pinned(filters, field) {
        let k = choose|k: int| #[trigger] pins_at(filters, field, k);
        assert(filters[i].0 == field);
        assert(k == i);
    }
}

} // verus!
