//! Pulling the records that lie together with given ones.

use crate::bytes;
use crate::canon;
use crate::canon::Canon;
use crate::error;
use crate::error::XyzError;
use crate::find::FindTarget;
use crate::layout;
use crate::put;
use crate::record::{Record, RecordV};
use crate::value::{Value, ValueV};
use vstd::prelude::*;

verus! {

/// How deep a pull goes at most.
pub const MAX_PULL_DEPTH: u32 = 10;

/// How deep a pull goes.
pub fn pull_depth(depth: u32) -> (r: u32)
    ensures
        r == if depth < MAX_PULL_DEPTH {
            depth
        } else {
            MAX_PULL_DEPTH
        },
        depth > 10 ==> r == 10,
        depth <= 10 ==> r == depth,
{
    if depth < MAX_PULL_DEPTH {
        depth
    } else {
        MAX_PULL_DEPTH
    }
}

/// The target of a pull that no records come before.
pub fn pull_target(target: Option<&FindTarget>) -> (r: Result<&FindTarget, XyzError>)
    ensures
        match target {
            Some(t) => r == Ok::<&FindTarget, XyzError>(t),
            None => error::is_invalid(r, "PULL requires a target or pipeline"@),
        },
{
    match target {
        Some(t) => Ok(t),
        None => error::invalid("PULL requires a target or pipeline"),
    }
}

/// The spatial key of a record to pull from; one that is gone, or whose key is
/// malformed, is passed over.
pub fn source_key(found: Option<&Vec<u8>>) -> (r: Option<Vec<u8>>)
    ensures
        crate::ghost_ops::opt_bytes(r) == match found {
            Some(k) => layout::full_key(k@),
            None => None,
        },
{
    match found {
        Some(k) => match layout::stored_key(k.as_slice(), "bad spatial key") {
            Ok(v) => Some(v),
            Err(_) => None,
        },
        None => None,
    }
}

/// The canonical text of a record's gravity value, if the lobe has a gravity
/// field and the record has it.
pub open spec fn canonical_value<H: Fn(&str) -> u64, R: Fn(&Value) -> String>(
    canon: Canon<H, R>,
    rec: RecordV,
    gravity_field: Option<Seq<char>>,
) -> Option<Seq<char>> {
    match gravity_field {
        Some(f) => if rec.fields.contains_key(f) {
            Some(canon.anchor_text(rec.fields[f]))
        } else {
            None
        },
        None => None,
    }
}

/// The canonical text of a record's gravity value.
pub fn source_canon<H: Fn(&str) -> u64, R: Fn(&Value) -> String>(
    canon: &Canon<H, R>,
    rec: &Record,
    gravity_field: Option<&str>,
) -> (r: Option<String>)
    requires
        canon.sound(),
    ensures
        crate::ghost_keys::opt_text(r) == canonical_value(
            *canon,
            rec@,
            put::opt_name(gravity_field),
        ),
{
    match gravity_field {
        Some(f) => match rec.fields.get(f) {
            Some(v) => {
                assert(rec@.fields[f@] == v@);
                Some(canon.value_to_anchor_string(v))
            },
            None => None,
        },
        None => None,
    }
}

/// The record belongs to another entity whose hash happens to be the same: its
/// gravity value differs from the source's and hashes to this bucket. A record
/// with another value that hashes elsewhere was put here by a link.
pub open spec fn collides<H: Fn(&str) -> u64, R: Fn(&Value) -> String>(
    canon: Canon<H, R>,
    rec: RecordV,
    gravity_field: Option<Seq<char>>,
    source: Option<Seq<char>>,
    bucket_hash: u64,
) -> bool {
    gravity_field matches Some(f) && source matches Some(s) && rec.fields.contains_key(f)
        && canon.anchor_text(rec.fields[f]) != s && canon::gravity_hash(
        canon,
        seq![rec.fields[f]],
    ) == bucket_hash
}

/// Whether the record belongs to another entity whose hash happens to be the
/// same.
pub fn is_collision_victim<H: Fn(&str) -> u64, R: Fn(&Value) -> String>(
    canon: &Canon<H, R>,
    rec: &Record,
    gravity_field: Option<&str>,
    source: Option<&str>,
    bucket_hash: u64,
) -> (r: bool)
    requires
        canon.sound(),
    ensures
        r == collides(
            *canon,
            rec@,
            put::opt_name(gravity_field),
            put::opt_name(source),
            bucket_hash,
        ),
{
    match (gravity_field, source) {
        (Some(gf), Some(src)) => match rec.fields.get(gf) {
            Some(v) => {
                assert(rec@.fields[gf@] == v@);
                let t = canon.value_to_anchor_string(v);
                if bytes::str_equal(t.as_str(), src) {
                    return false;
                }
                let mut pair: Vec<(String, Value)> = Vec::new();
                pair.push((gf.to_owned(), v.clone_value()));
                assert(canon::pair_values(pair@) =~= seq![v@]);
                canon::compute_gravity_hash(canon, pair.as_slice()) == bucket_hash
            },
            None => false,
        },
        _ => false,
    }
}

/// The record is of the type that is asked for.
pub open spec fn is_of_type(rec: RecordV, only: Option<Seq<char>>) -> bool {
    only matches Some(t) ==> rec.fields.contains_key("_type"@) && rec.fields["_type"@]
        == ValueV::Text(t)
}

/// Whether a record of a bucket is pulled: it belongs to the source's entity,
/// and is of the type that is asked for.
pub fn is_pulled<H: Fn(&str) -> u64, R: Fn(&Value) -> String>(
    canon: &Canon<H, R>,
    rec: &Record,
    gravity_field: Option<&str>,
    source: Option<&str>,
    bucket_hash: u64,
    only: Option<&str>,
) -> (r: bool)
    requires
        canon.sound(),
    ensures
        r == (!collides(
            *canon,
            rec@,
            put::opt_name(gravity_field),
            put::opt_name(source),
            bucket_hash,
        ) && is_of_type(rec@, put::opt_name(only))),
{
    if is_collision_victim(canon, rec, gravity_field, source, bucket_hash) {
        return false;
    }
    match only {
        Some(t) => match rec.fields.get("_type") {
            Some(v) => {
                assert(rec@.fields["_type"@] == v@);
                match v {
                    Value::Text(s) => bytes::str_equal(s.as_str(), t),
                    _ => false,
                }
            },
            None => false,
        },
        None => true,
    }
}

/// Members of the source's entity are never taken for strangers: neither a
/// record with the source's value, nor one without the field.
pub proof fn law_members_are_pulled<H: Fn(&str) -> u64, R: Fn(&Value) -> String>(
    canon: Canon<H, R>,
    rec: RecordV,
    gravity_field: Option<Seq<char>>,
    source: Option<Seq<char>>,
    bucket_hash: u64,
)
    requires
        canonical_value(canon, rec, gravity_field) is None || canonical_value(
            canon,
            rec,
            gravity_field,
        ) == source,
    ensures
        !collides(canon, rec, gravity_field, source, bucket_hash),
{
}

/// A record that was placed by its gravity field in a bucket with another value
/// than the source's is taken for a stranger.
pub proof fn law_strangers_are_left<H: Fn(&str) -> u64, R: Fn(&Value) -> String>(
    canon: Canon<H, R>,
    rec: RecordV,
    field: Seq<char>,
    source: Seq<char>,
)
    requires
        rec.fields.contains_key(field),
        canon.anchor_text(rec.fields[field]) != source,
    ensures
        collides(
            canon,
            rec,
            Some(field),
            Some(source),
            canon::gravity_hash(canon, seq![rec.fields[field]]),
        ),
{
}

/// An entity: its lobe, the hash of its bucket and the value that it is checked
/// by.
pub struct Entity {
    pub lobe_id: u16,
    pub hash: u64,
    pub canon: Option<String>,
}

/// What an [`Entity`] is.
pub struct EntityV {
    pub lobe_id: u16,
    pub hash: u64,
    pub canon: Option<Seq<char>>,
}

impl View for Entity {
    type V = EntityV;

    open spec fn view(&self) -> EntityV {
        EntityV {
            lobe_id: self.lobe_id,
            hash: self.hash,
            canon: crate::ghost_keys::opt_text(self.canon),
        }
    }
}

/// The entities that were pulled.
pub struct PulledEntities {
    items: Vec<Entity>,
}

impl View for PulledEntities {
    type V = Set<EntityV>;

    closed spec fn view(&self) -> Set<EntityV> {
        Set::new(
            |e: EntityV|
                exists|i: int| 0 <= i < self.items@.len() && (#[trigger] self.items@[i])@ == e,
        )
    }
}

/// Whether two optional texts are the same.
fn same_text(a: &Option<String>, b: &Option<String>) -> (r: bool)
    ensures
        r == (crate::ghost_keys::opt_text(*a) == crate::ghost_keys::opt_text(*b)),
{
    match (a, b) {
        (None, None) => true,
        (Some(x), Some(y)) => bytes::str_equal(x.as_str(), y.as_str()),
        _ => false,
    }
}

impl PulledEntities {
    /// No entity yet.
    pub fn new() -> (r: Self)
        ensures
            r@ == Set::<EntityV>::empty(),
    {
        let r = PulledEntities { items: Vec::new() };
        assert(r@ =~= Set::<EntityV>::empty());
        r
    }

    /// Adds an entity and says whether it is a new one. Two values in one bucket
    /// are two entities.
    pub fn insert(&mut self, e: Entity) -> (r: bool)
        ensures
            r == !old(self)@.contains(e@),
            final(self)@ == old(self)@.insert(e@),
    {
        let ghost before = self@;
        let ghost ev = e@;
        let mut i: usize = 0;
        while i < self.items.len()
            invariant
                i <= self.items@.len(),
                ev == e@,
                before == self@,
                before == old(self)@,
                forall|j: int| 0 <= j < i ==> (#[trigger] self.items@[j])@ != ev,
            decreases self.items@.len() - i,
        {
            let x = &self.items[i];
            if x.lobe_id == e.lobe_id && x.hash == e.hash && same_text(&x.canon, &e.canon) {
                assert(self.items@[i as int]@ == ev);
                assert(self@ =~= before.insert(ev));
                return false;
            }
            i = i + 1;
        }
        let ghost was = self.items@;
        self.items.push(e);
        proof {
            assert forall|x: EntityV| self@.contains(x) == before.insert(ev).contains(x) by {
                if before.contains(x) {
                    let j = choose|j: int| 0 <= j < was.len() && (#[trigger] was[j])@ == x;
                    assert(self.items@[j]@ == x);
                }
                if x == ev {
                    assert(self.items@[was.len() as int]@ == x);
                }
                if self@.contains(x) {
                    let j = choose|j: int|
                        0 <= j < self.items@.len() && (#[trigger] self.items@[j])@ == x;
                    if j < was.len() {
                        assert(was[j]@ == x);
                    }
                }
            }
            assert(self@ =~= before.insert(ev));
        }
        true
    }
}

/// Where a type is asked for, a record is pulled only if that is its type; where none is,
/// its type does not matter.
pub proof fn law_type_is_asked_for(rec: RecordV, t: Seq<char>)
    ensures
        is_of_type(rec, None),
        is_of_type(rec, Some(t)) <==> rec.fields.contains_key("_type"@) && rec.fields["_type"@]
            == ValueV::Text(t),
{
}

/// Of the records in a bucket that have the gravity field, a stranger is one whose value
/// reads otherwise than the source's although it hashes to the bucket. One whose value
/// hashes elsewhere was linked here and is no stranger.
pub proof fn law_linked_records_are_no_strangers<H: Fn(&str) -> u64, R: Fn(&Value) -> String>(
    canon: Canon<H, R>,
    rec: RecordV,
    field: Seq<char>,
    s: &str,
    h: u64,
    source: Seq<char>,
    bucket_hash: u64,
)
    requires
        canon.sound(),
        rec.fields.contains_key(field),
        rec.fields[field] == ValueV::Text(s@),
        canon.hash.ensures((s,), h),
    ensures
        collides(canon, rec, Some(field), Some(source), bucket_hash) <==> s@ != source && h
            == bucket_hash,
        !collides(canon, rec, Some(field), None, bucket_hash),
        !collides(canon, rec, None, Some(source), bucket_hash),
{
    let vals = seq![rec.fields[field]];
    let parts = vals.map_values(|v: ValueV| canon.anchor_text(v));
    assert(parts =~= seq![s@]);
    reveal_with_fuel(crate::text::joined, 2);
    assert(s@ =~= crate::text::joined(parts, seq!['\0']));
    canon.law_hash_of_values(vals, s, h);
}

} // verus!
