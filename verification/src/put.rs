//! Writing records: one, a batch, or in bulk.

use crate::byte_set::ByteSet;
use crate::error::XyzError;
use crate::gravity_spec;
use crate::gravity_spec::{GravitySpec, GravitySpecV};
use crate::layout;
use crate::layout::{Layout, Place};
use crate::placement;
use crate::placement::{Placed, Placer};
use crate::record;
use crate::record::{Fields, Record, RecordV};
use crate::satellite_spec::SatelliteAxis;
use crate::text;
use crate::value::{Value, ValueV};
use crate::write_ops;
use crate::write_ops::{EncodedRecord, EncodedRecordV, Keyspaces, WriteOp, WriteOpV};
use vstd::prelude::*;

verus! {

/// The most records of a batch.
pub const MAX_BATCH_SIZE: usize = 10_000;

/// After how many writes their number is saved.
pub const WRITES_SAVED_EVERY: u64 = 10_000;

/// Numbers that tell the spatial keys of records apart.
pub struct RecordSeq {
    next: u64,
}

impl RecordSeq {
    /// The number that comes next.
    pub closed spec fn upcoming(&self) -> u64 {
        self.next
    }

    /// Numbers from zero on.
    pub fn new() -> (r: Self)
        ensures
            r.upcoming() == 0,
    {
        RecordSeq { next: 0 }
    }

    /// The next number. After the last one they begin again at zero.
    pub fn next_record_seq(&mut self) -> (r: u64)
        ensures
            r == old(self).upcoming(),
            final(self).upcoming() == (if r == u64::MAX {
                0
            } else {
                r + 1
            }),
    {
        let r: u64 = self.next;
        self.next = r.wrapping_add(1);
        r
    }
}

/// An anchor that a record has: its name, the text of its value, and its key in
/// the dictionary.
#[derive(Debug)]
pub struct AnchorKey {
    pub name: String,
    pub value: String,
    pub key: Vec<u8>,
}

/// What an [`AnchorKey`] says.
pub struct AnchorKeyV {
    pub name: Seq<char>,
    pub value: Seq<char>,
    pub key: Seq<u8>,
}

impl View for AnchorKey {
    type V = AnchorKeyV;

    open spec fn view(&self) -> AnchorKeyV {
        AnchorKeyV { name: self.name@, value: self.value@, key: self.key@ }
    }
}

/// What anchors say.
pub open spec fn anchor_keys_view(s: Seq<AnchorKey>) -> Seq<AnchorKeyV> {
    s.map_values(|k: AnchorKey| k@)
}

/// A place in the dictionary that is taken, at `i`, and none before it.
pub open spec fn first_taken(found: Seq<Option<Vec<u8>>>, i: int) -> bool {
    &&& 0 <= i < found.len()
    &&& found[i] is Some
    &&& forall|j: int| 0 <= j < i ==> (#[trigger] found[j]) is None
}

/// The failure of writing an anchor's value that another record has.
pub open spec fn is_duplicate<T>(
    r: Result<T, XyzError>,
    k: AnchorKeyV,
    lobe: Seq<char>,
    existing: Seq<char>,
) -> bool {
    r matches Err(XyzError::DuplicateAnchor { anchor, value, lobe: l, existing_lid }) && anchor@
        == k.name && value@ == k.value && l@ == lobe && existing_lid@ == existing
}

/// The failure of writing an anchor's value that another record has.
fn duplicate<T>(k: &AnchorKey, lobe: &str, existing: String) -> (r: Result<T, XyzError>)
    ensures
        is_duplicate(r, k@, lobe@, existing@),
{
    Err(
        XyzError::DuplicateAnchor {
            anchor: k.name.clone(),
            value: k.value.clone(),
            lobe: lobe.to_owned(),
            existing_lid: existing,
        },
    )
}

/// A record that is ready to be written.
#[derive(Debug)]
pub struct Draft {
    pub record: Record,
    pub spatial_key: Vec<u8>,
    pub anchors: Vec<AnchorKey>,
    pub placed: Placed,
}

/// What a [`Draft`] stands for.
pub struct DraftV {
    pub record: RecordV,
    pub spatial_key: Seq<u8>,
    pub anchors: Seq<AnchorKeyV>,
    pub placed: Placed,
}

impl View for Draft {
    type V = DraftV;

    open spec fn view(&self) -> DraftV {
        DraftV {
            record: self.record@,
            spatial_key: self.spatial_key@,
            anchors: anchor_keys_view(self.anchors@),
            placed: self.placed,
        }
    }
}

/// What decides where a new record lies and how it is named.
pub struct Stamp {
    pub lobe_id: u16,
    pub lid: u128,
    /// When the record is written.
    pub created_micros: u64,
    /// The time in its spatial key.
    pub key_micros: u64,
    pub seq: u64,
}

/// What came of a request to write a record.
#[derive(Debug)]
pub enum PutOutcome {
    /// A new record.
    Insert(Draft),
    /// Another record has an anchor's value and takes the fields.
    Update(u128),
}

/// The writes of anchors.
pub open spec fn anchor_ops(anchors: Seq<AnchorKeyV>, lid: Seq<u8>) -> Seq<WriteOpV> {
    anchors.map_values(|k: AnchorKeyV| WriteOpV::PutDictionary(k.key, lid))
}

/// The writes of a new record: its data before what leads to it.
pub open spec fn insert_ops(d: DraftV, lid: Seq<u8>, e: EncodedRecordV) -> Seq<WriteOpV> {
    seq![
        WriteOpV::PutSpatial(d.spatial_key, e.bytes),
        WriteOpV::PutIdentity(lid, d.spatial_key),
    ] + write_ops::column_op(d.spatial_key, e) + write_ops::registry_op(e) + anchor_ops(
        d.anchors,
        lid,
    )
}

/// The writes of a changed record that stays where it is.
pub open spec fn update_ops(key: Seq<u8>, e: EncodedRecordV) -> Seq<WriteOpV> {
    seq![WriteOpV::PutSpatial(key, e.bytes)] + write_ops::column_op(key, e)
        + write_ops::registry_op(e)
}

/// The fields of a record after others were merged into them.
pub open spec fn merged(old: Map<Seq<char>, ValueV>, new: Map<Seq<char>, ValueV>) -> Map<
    Seq<char>,
    ValueV,
> {
    old.union_prefer_right(new)
}

/// The length of the vector that is kept in a column of its own.
pub open spec fn hoisted(search: Option<Seq<char>>, fields: Map<Seq<char>, ValueV>) -> Option<
    nat,
> {
    match search {
        Some(f) => if fields.contains_key(f) && fields[f] is Vector {
            Some(fields[f]->Vector_0.len())
        } else {
            None
        },
        None => None,
    }
}

/// What an optional name says.
pub open spec fn opt_name(s: Option<&str>) -> Option<Seq<char>> {
    match s {
        Some(t) => Some(t@),
        None => None,
    }
}

/// The length of the vector that is kept in a column of its own: that of the
/// lobe's search field, where the record has a vector there.
pub fn hoisted_dims(search: Option<&str>, fields: &Fields) -> (r: Option<usize>)
    ensures
        match hoisted(opt_name(search), record::fields_view(fields@)) {
            Some(n) => r == Some(n as usize) && n <= usize::MAX,
            None => r is None,
        },
{
    match search {
        Some(f) => match fields.get(f) {
            Some(v) => {
                assert(record::fields_view(fields@)[f@] == v@);
                match v {
                    Value::Vector(x) => Some(x.len()),
                    _ => None,
                }
            },
            None => None,
        },
        None => None,
    }
}

/// The record with the fields merged into it, changed at `now`.
pub fn merge_fields(old: &Record, new_fields: &Fields, now: i64) -> (r: Record)
    ensures
        r@ == (RecordV {
            fields: merged(old@.fields, record::fields_view(new_fields@)),
            updated_at: now,
            ..old@
        }),
{
    let copy = old.clone_record();
    let fields = record::extend_fields(
        copy.fields,
        record::clone_fields(new_fields),
    );
    Record {
        lid: copy.lid,
        lobe_name: copy.lobe_name,
        fields,
        created_at: copy.created_at,
        updated_at: now,
    }
}

/// The writes of a changed record that stays where it is.
pub fn update_writes(key: &Vec<u8>, e: &EncodedRecord) -> (r: Vec<WriteOp>)
    ensures
        write_ops::ops_view(r@) == update_ops(key@, e@),
{
    let mut ops: Vec<WriteOp> = Vec::new();
    ops.push(WriteOp::PutSpatial(write_ops::copy_bytes(key), write_ops::copy_bytes(&e.bytes)));
    assert(write_ops::ops_view(ops@) =~= seq![WriteOpV::PutSpatial(key@, e@.bytes)]);
    write_ops::push_column(&mut ops, key, e);
    write_ops::push_registry(&mut ops, e);
    ops
}

/// The conventions for placing records and for laying them out.
pub struct Writer<H, R, C, D, S, G, B, F, T> {
    pub placer: Placer<H, R, C>,
    pub layout: Layout<D, S, G, B, F, T>,
}

impl<
    H: Fn(&str) -> u64,
    R: Fn(&Value) -> String,
    C: Fn(&Fields) -> String,
    D: Fn(u16, &str, &str) -> Vec<u8>,
    S: Fn(Place) -> Vec<u8>,
    G: Fn(&[u8]) -> u64,
    B: Fn(u128) -> Vec<u8>,
    F: Fn(&[u8]) -> u128,
    T: Fn(u128) -> String,
> Writer<H, R, C, D, S, G, B, F, T> {
    /// Both conventions are sound.
    pub open spec fn sound(&self) -> bool {
        self.placer.sound() && self.layout.sound()
    }

    /// An anchor of the record.
    pub open spec fn anchor_key(
        &self,
        lobe_id: u16,
        name: Seq<char>,
        v: ValueV,
    ) -> AnchorKeyV {
        let t = self.placer.canon.anchor_text(v);
        AnchorKeyV { name, value: t, key: self.layout.dictionary_key_of(lobe_id, name, t) }
    }

    /// The anchors that a record has, in the order in which they are declared.
    pub open spec fn record_anchors(
        &self,
        lobe_id: u16,
        anchors: Seq<Seq<char>>,
        fields: Map<Seq<char>, ValueV>,
    ) -> Seq<AnchorKeyV>
        decreases anchors.len(),
    {
        if anchors.len() == 0 {
            Seq::empty()
        } else {
            let before = self.record_anchors(lobe_id, anchors.drop_last(), fields);
            if fields.contains_key(anchors.last()) {
                before.push(self.anchor_key(lobe_id, anchors.last(), fields[anchors.last()]))
            } else {
                before
            }
        }
    }

    /// The anchors that a record has.
    pub fn anchor_keys(&self, lobe_id: u16, anchors: &[String], fields: &Fields) -> (r: Vec<
        AnchorKey,
    >)
        requires
            self.sound(),
        ensures
            anchor_keys_view(r@) == self.record_anchors(
                lobe_id,
                text::names(anchors@),
                record::fields_view(fields@),
            ),
    {
        let ghost av = text::names(anchors@);
        let ghost fv = record::fields_view(fields@);
        let mut r: Vec<AnchorKey> = Vec::new();
        let mut i: usize = 0;
        proof {
            assert(av.take(0) =~= Seq::<Seq<char>>::empty());
            assert(anchor_keys_view(r@) =~= Seq::<AnchorKeyV>::empty());
        }
        while i < anchors.len()
            invariant
                i <= anchors@.len(),
                self.sound(),
                av == text::names(anchors@),
                fv == record::fields_view(fields@),
                anchor_keys_view(r@) == self.record_anchors(lobe_id, av.take(i as int), fv),
            decreases anchors@.len() - i,
        {
            proof {
                assert(av.take(i + 1).drop_last() =~= av.take(i as int));
                assert(av.take(i + 1).last() == anchors@[i as int]@);
            }
            if let Some(v) = fields.get(anchors[i].as_str()) {
                let value = self.placer.canon.value_to_anchor_string(v);
                let key = self.layout.make_dictionary_key(
                    lobe_id,
                    anchors[i].as_str(),
                    value.as_str(),
                );
                let ghost before = anchor_keys_view(r@);
                let k = AnchorKey { name: anchors[i].clone(), value, key };
                let ghost kv = k@;
                r.push(k);
                assert(anchor_keys_view(r@) =~= before.push(kv));
            }
            i = i + 1;
        }
        assert(av.take(i as int) =~= av);
        r
    }

    /// What the places of the anchors in the dictionary mean for a new record:
    /// it can be written where none is taken; where one is, the record there is
    /// to be updated, or else the value is a duplicate.
    pub open spec fn is_conflict(
        &self,
        keys: Seq<AnchorKeyV>,
        found: Seq<Option<Vec<u8>>>,
        on_conflict: bool,
        lobe: Seq<char>,
        r: Result<Option<u128>, XyzError>,
    ) -> bool {
        &&& (forall|i: int| !first_taken(found, i)) ==> r == Ok::<Option<u128>, XyzError>(None)
        &&& forall|i: int| #[trigger]
            first_taken(found, i) ==> {
                let e = found[i]->Some_0@;
                let whole = e.len() == layout::LID_SIZE;
                if on_conflict {
                    if whole {
                        r == Ok::<Option<u128>, XyzError>(Some(self.layout.lid_of(e)))
                    } else {
                        r matches Err(XyzError::Internal(m)) && m@ == "bad LID in dictionary"@
                    }
                } else {
                    is_duplicate(
                        r,
                        keys[i],
                        lobe,
                        if whole {
                            self.layout.lid_text_of(self.layout.lid_of(e))
                        } else {
                            "unknown"@
                        },
                    )
                }
            }
    }

    /// What the places of the anchors in the dictionary mean for a new record.
    /// `found` is what they hold, as far as was looked.
    pub fn check_conflict(
        &self,
        keys: &Vec<AnchorKey>,
        found: &Vec<Option<Vec<u8>>>,
        on_conflict: bool,
        lobe: &str,
    ) -> (r: Result<Option<u128>, XyzError>)
        requires
            self.sound(),
            found@.len() <= keys@.len(),
        ensures
            self.is_conflict(anchor_keys_view(keys@), found@, on_conflict, lobe@, r),
    {
        let mut i: usize = 0;
        while i < found.len()
            invariant
                i <= found@.len() <= keys@.len(),
                self.sound(),
                forall|j: int| 0 <= j < i ==> (#[trigger] found@[j]) is None,
            decreases found@.len() - i,
        {
            if let Some(e) = &found[i] {
                proof {
                    assert(first_taken(found@, i as int));
                    assert forall|k: int| #[trigger] first_taken(found@, k) implies k == i by {
                        if k < i {
                            assert(found@[k] is None);
                        }
                    }
                    assert(anchor_keys_view(keys@)[i as int] == keys@[i as int]@);
                }
                if on_conflict {
                    if e.len() != layout::LID_SIZE {
                        return Err(XyzError::Internal("bad LID in dictionary".to_owned()));
                    }
                    return Ok(Some(self.layout.read_lid(e.as_slice())));
                }
                let existing = if e.len() == layout::LID_SIZE {
                    let lid: u128 = self.layout.read_lid(e.as_slice());
                    self.layout.show_lid(lid)
                } else {
                    "unknown".to_owned()
                };
                return duplicate(&keys[i], lobe, existing);
            }
            i = i + 1;
        }
        Ok(None)
    }

    /// The draft of a new record.
    pub open spec fn drafted(
        &self,
        stamp: Stamp,
        lobe: Seq<char>,
        fields: Map<Seq<char>, ValueV>,
        placed: Placed,
        anchors: Seq<AnchorKeyV>,
        satellite: Option<u16>,
    ) -> DraftV {
        DraftV {
            record: RecordV {
                lid: stamp.lid,
                lobe_name: lobe,
                fields,
                created_at: stamp.created_micros as i64,
                updated_at: stamp.created_micros as i64,
            },
            spatial_key: self.layout.spatial_key_of(
                Place {
                    lobe_id: stamp.lobe_id,
                    gravity_hash: placed.hash,
                    satellite,
                    type_id: self.placer.type_id(fields),
                    micros: stamp.key_micros,
                    seq: stamp.seq,
                },
            ),
            anchors,
            placed,
        }
    }

    /// The draft of a new record.
    pub fn draft<A: Fn(&Value) -> u16>(
        &self,
        stamp: Stamp,
        lobe: &str,
        fields: Fields,
        placed: Placed,
        anchors: Vec<AnchorKey>,
        axis: &SatelliteAxis<A>,
    ) -> (r: Draft)
        requires
            self.sound(),
            axis.sound(),
        ensures
            r@ == self.drafted(
                stamp,
                lobe@,
                record::fields_view(fields@),
                placed,
                anchor_keys_view(anchors@),
                axis.satellite(record::fields_view(fields@)),
            ),
    {
        let satellite = axis.satellite_of(&fields);
        let type_id: u16 = self.placer.type_id_from_fields(&fields);
        let spatial_key = self.layout.make_spatial_key(
            Place {
                lobe_id: stamp.lobe_id,
                gravity_hash: placed.hash,
                satellite,
                type_id,
                micros: stamp.key_micros,
                seq: stamp.seq,
            },
        );
        Draft {
            record: Record {
                lid: stamp.lid,
                lobe_name: lobe.to_owned(),
                fields,
                created_at: stamp.created_micros as i64,
                updated_at: stamp.created_micros as i64,
            },
            spatial_key,
            anchors,
            placed,
        }
    }

    /// A new record that no link places lies where a query with its values looks:
    /// in the bucket of its values on the lobe's gravity, and there in the
    /// satellite of its value on the lobe's axis.
    pub proof fn law_new_record_lies_where_query_looks<A: Fn(&Value) -> u16>(
        &self,
        stamp: Stamp,
        lobe: Seq<char>,
        fields: Map<Seq<char>, ValueV>,
        markers: Seq<(Seq<char>, ValueV)>,
        anchors: Seq<Seq<char>>,
        keys: Seq<AnchorKeyV>,
        spec: GravitySpecV,
        axis: SatelliteAxis<A>,
        filters: Seq<(Seq<char>, record::FilterOp, ValueV)>,
    )
        requires
            placement::pinned_as(filters, gravity_spec::spec_fields(spec), fields),
            axis.spec matches Some(s) ==> placement::pinned_as(filters, seq![s.field@], fields),
        ensures
            gravity_spec::pinned_hash(self.placer.canon, spec, filters) is Some,
            self.drafted(
                stamp,
                lobe,
                fields,
                self.placer.placed(None, Some(spec), markers, anchors, fields),
                keys,
                axis.satellite(fields),
            ).spatial_key == self.layout.spatial_key_of(
                Place {
                    lobe_id: stamp.lobe_id,
                    gravity_hash: gravity_spec::pinned_hash(
                        self.placer.canon,
                        spec,
                        filters,
                    )->Some_0,
                    satellite: axis.pinned(filters),
                    type_id: self.placer.type_id(fields),
                    micros: stamp.key_micros,
                    seq: stamp.seq,
                },
            ),
    {
        self.placer.law_record_lies_where_query_looks(spec, markers, anchors, fields, filters);
        if let Some(s) = axis.spec {
            assert(seq![s.field@][0] == s.field@);
        }
        axis.law_record_lies_in_searched_satellite(fields, filters);
    }

    /// What comes of a request to write a record whose fields are built and
    /// whose marks were checked.
    pub open spec fn is_put(
        &self,
        stamp: Stamp,
        lobe: Seq<char>,
        fields: Map<Seq<char>, ValueV>,
        markers: Seq<(Seq<char>, ValueV)>,
        anchors: Seq<Seq<char>>,
        found: Seq<Option<Vec<u8>>>,
        on_conflict: bool,
        link: Option<u64>,
        spec: Option<GravitySpecV>,
        satellite: Option<u16>,
        r: Result<PutOutcome, XyzError>,
    ) -> bool {
        let keys = self.record_anchors(stamp.lobe_id, anchors, fields);
        exists|c: Result<Option<u128>, XyzError>|
            self.is_conflict(keys, found, on_conflict, lobe, c) && match c {
                Ok(None) => r matches Ok(PutOutcome::Insert(d)) && d@ == self.drafted(
                    stamp,
                    lobe,
                    fields,
                    self.placer.placed(link, spec, markers, anchors, fields),
                    keys,
                    satellite,
                ),
                Ok(Some(lid)) => r matches Ok(PutOutcome::Update(l)) && l == lid,
                Err(e) => r == Err::<PutOutcome, XyzError>(e),
            }
    }

    /// Decides what comes of a request to write a record: a new one, an update
    /// of the one that has an anchor's value, or the failure that the value is a
    /// duplicate. `found` is what the dictionary holds for the record's anchors,
    /// in their order and as far as was looked.
    pub fn execute_put<A: Fn(&Value) -> u16>(
        &self,
        stamp: Stamp,
        lobe: &str,
        fields: Fields,
        markers: &[(String, Value)],
        anchors: &[String],
        found: &Vec<Option<Vec<u8>>>,
        on_conflict: bool,
        link: Option<u64>,
        spec: Option<&GravitySpec>,
        axis: &SatelliteAxis<A>,
    ) -> (r: Result<PutOutcome, XyzError>)
        requires
            self.sound(),
            axis.sound(),
            found@.len() <= self.record_anchors(
                stamp.lobe_id,
                text::names(anchors@),
                record::fields_view(fields@),
            ).len(),
        ensures
            self.is_put(
                stamp,
                lobe@,
                record::fields_view(fields@),
                placement::markers_view(markers@),
                text::names(anchors@),
                found@,
                on_conflict,
                link,
                placement::opt_spec(spec),
                axis.satellite(record::fields_view(fields@)),
                r,
            ),
    {
        let keys = self.anchor_keys(stamp.lobe_id, anchors, &fields);
        assert(keys@.len() == anchor_keys_view(keys@).len());
        let c = self.check_conflict(&keys, found, on_conflict, lobe);
        let ghost was = c;
        match c {
            Err(e) => Err(e),
            Ok(Some(lid)) => Ok(PutOutcome::Update(lid)),
            Ok(None) => {
                let placed = self.placer.place(link, spec, markers, anchors, &fields);
                Ok(PutOutcome::Insert(self.draft(stamp, lobe, fields, placed, keys, axis)))
            },
        }
    }

    /// The writes of a new record.
    pub fn insert_writes(&self, d: &Draft, e: &EncodedRecord) -> (r: Vec<WriteOp>)
        requires
            self.sound(),
        ensures
            write_ops::ops_view(r@) == insert_ops(
                d@,
                self.layout.lid_bytes_of(d@.record.lid),
                e@,
            ),
    {
        let lid = self.layout.make_lid_bytes(d.record.lid);
        let ghost lv = lid@;
        let mut ops: Vec<WriteOp> = Vec::new();
        ops.push(
            WriteOp::PutSpatial(
                write_ops::copy_bytes(&d.spatial_key),
                write_ops::copy_bytes(&e.bytes),
            ),
        );
        ops.push(
            WriteOp::PutIdentity(write_ops::copy_bytes(&lid), write_ops::copy_bytes(&d.spatial_key)),
        );
        assert(write_ops::ops_view(ops@) =~= seq![
            WriteOpV::PutSpatial(d@.spatial_key, e@.bytes),
            WriteOpV::PutIdentity(lv, d@.spatial_key),
        ]);
        write_ops::push_column(&mut ops, &d.spatial_key, e);
        write_ops::push_registry(&mut ops, e);
        let ghost before = write_ops::ops_view(ops@);
        let ghost todo = anchor_ops(d@.anchors, lv);
        let mut i: usize = 0;
        assert(before + todo.take(0) =~= before);
        while i < d.anchors.len()
            invariant
                i <= d.anchors@.len(),
                lv == lid@,
                todo == anchor_ops(d@.anchors, lv),
                write_ops::ops_view(ops@) == before + todo.take(i as int),
            decreases d.anchors@.len() - i,
        {
            let ghost was = write_ops::ops_view(ops@);
            write_ops::push_op(
                &mut ops,
                WriteOp::PutDictionary(
                    write_ops::copy_bytes(&d.anchors[i].key),
                    write_ops::copy_bytes(&lid),
                ),
            );
            assert(todo[i as int] == WriteOpV::PutDictionary(d.anchors@[i as int].key@, lv));
            assert(write_ops::ops_view(ops@) =~= before + todo.take(i + 1));
            i = i + 1;
        }
        assert(todo.take(i as int) =~= todo);
        ops
    }

    /// What is told of a new record.
    pub fn inserted_message(&self, lid: u128) -> (r: String)
        requires
            self.sound(),
        ensures
            r@ == "1 record inserted (LID: "@ + self.layout.lid_text_of(lid) + ")"@,
    {
        let t = self.layout.show_lid(lid);
        text::join3("1 record inserted (LID: ", t.as_str(), ")")
    }

    /// What is told of an updated record.
    pub fn updated_message(&self, lid: u128) -> (r: String)
        requires
            self.sound(),
        ensures
            r@ == "1 record updated (LID: "@ + self.layout.lid_text_of(lid) + ")"@,
    {
        let t = self.layout.show_lid(lid);
        text::join3("1 record updated (LID: ", t.as_str(), ")")
    }

    /// The failure of reaching a record by its identity.
    pub open spec fn is_missing<X>(&self, r: Result<X, XyzError>, lid: u128) -> bool {
        r matches Err(XyzError::RecordNotFound(m)) && m@ == self.layout.lid_text_of(lid)
    }

    /// The spatial key of an update's record; `found` is what the identity leads
    /// to.
    pub fn upsert_key(&self, lid: u128, found: Option<&Vec<u8>>) -> (r: Result<Vec<u8>, XyzError>)
        requires
            self.sound(),
        ensures
            match found {
                None => self.is_missing(r, lid),
                Some(k) => match layout::full_key(k@) {
                    Some(f) => r matches Ok(v) && v@ == f,
                    None => r matches Err(XyzError::Internal(m)) && m@
                        == "bad spatial key in identity"@,
                },
            },
    {
        match found {
            None => Err(XyzError::RecordNotFound(self.layout.show_lid(lid))),
            Some(k) => layout::stored_key(k.as_slice(), "bad spatial key in identity"),
        }
    }

    /// The record of an update with the fields merged into it; `old` is what its
    /// spatial key leads to.
    pub fn execute_upsert(
        &self,
        lid: u128,
        old: Option<&Record>,
        new_fields: &Fields,
        now: i64,
    ) -> (r: Result<Record, XyzError>)
        requires
            self.sound(),
        ensures
            match old {
                None => self.is_missing(r, lid),
                Some(o) => r matches Ok(n) && n@ == (RecordV {
                    fields: merged(o@.fields, record::fields_view(new_fields@)),
                    updated_at: now,
                    ..o@
                }),
            },
    {
        match old {
            None => Err(XyzError::RecordNotFound(self.layout.show_lid(lid))),
            Some(o) => Ok(merge_fields(o, new_fields, now)),
        }
    }

    /// The hash that a link hands on: that in the spatial key of its target.
    pub fn resolve_gravity_hash_from_link(&self, target_key: Option<&Vec<u8>>) -> (r: Result<
        u64,
        XyzError,
    >)
        requires
            self.sound(),
        ensures
            match target_key {
                Some(k) => r == Ok::<u64, XyzError>(self.layout.gravity_hash_of(k@)),
                None => r matches Err(XyzError::RecordNotFound(m)) && m@
                    == "LINK target not found"@,
            },
    {
        match target_key {
            Some(k) => Ok(self.layout.read_gravity_hash(k.as_slice())),
            None => Err(XyzError::RecordNotFound("LINK target not found".to_owned())),
        }
    }
}

/// The keys of anchors.
pub open spec fn keys_of(s: Seq<AnchorKeyV>) -> Seq<Seq<u8>> {
    s.map_values(|k: AnchorKeyV| k.key)
}

/// What was written is found: the record under its spatial key, the key under
/// its identity, and the identity under every anchor. Nothing else changes but the
/// registry and the column.
pub proof fn law_insert_is_found(k: Keyspaces, d: DraftV, lid: Seq<u8>, e: EncodedRecordV)
    ensures
        ({
            let after = write_ops::after_writes(k, insert_ops(d, lid, e));
            &&& after.spatial == k.spatial.insert(d.spatial_key, e.bytes)
            &&& after.identity == k.identity.insert(lid, d.spatial_key)
            &&& after.vectors == match e.column {
                Some(c) => k.vectors.insert(d.spatial_key, c),
                None => k.vectors,
            }
            &&& forall|i: int|
                0 <= i < d.anchors.len() ==> after.dictionary.contains_key(
                    (#[trigger] d.anchors[i]).key,
                ) && after.dictionary[d.anchors[i].key] == lid
            &&& forall|x: Seq<u8>| #[trigger]
                after.dictionary.contains_key(x) ==> (k.dictionary.contains_key(x)
                    && after.dictionary[x] == k.dictionary[x]) || keys_of(d.anchors).contains(x) || (
                e.registry matches Some(p) && p.0 == x)
        }),
{
    let head = seq![
        WriteOpV::PutSpatial(d.spatial_key, e.bytes),
        WriteOpV::PutIdentity(lid, d.spatial_key),
    ];
    let col = write_ops::column_op(d.spatial_key, e);
    let reg = write_ops::registry_op(e);
    let tail = anchor_ops(d.anchors, lid);
    write_ops::law_writes_compose(k, head + col + reg, tail);
    write_ops::law_writes_compose(k, head + col, reg);
    write_ops::law_writes_compose(k, head, col);
    let k1 = write_ops::after_writes(k, head);
    assert(k1.spatial == k.spatial.insert(d.spatial_key, e.bytes) && k1.identity
        == k.identity.insert(lid, d.spatial_key) && k1.vectors == k.vectors && k1.dictionary
        == k.dictionary) by {
        reveal_with_fuel(write_ops::after_writes, 3);
        assert(head.drop_last() =~= seq![head[0]]);
        assert(head.drop_last().drop_last() =~= Seq::<WriteOpV>::empty());
    }
    let k2 = write_ops::after_writes(k1, col);
    let k3 = write_ops::after_writes(k2, reg);
    assert(k2.spatial == k1.spatial && k2.identity == k1.identity && k2.dictionary == k1.dictionary
        && k2.vectors == match e.column {
        Some(c) => k.vectors.insert(d.spatial_key, c),
        None => k.vectors,
    }) by {
        reveal_with_fuel(write_ops::after_writes, 2);
        if e.column is Some {
            assert(col.drop_last() =~= Seq::<WriteOpV>::empty());
        }
    }
    assert(k3.spatial == k2.spatial && k3.identity == k2.identity && k3.vectors == k2.vectors
        && k3.dictionary == match e.registry {
        Some(p) => k.dictionary.insert(p.0, p.1),
        None => k.dictionary,
    }) by {
        reveal_with_fuel(write_ops::after_writes, 2);
        if e.registry is Some {
            assert(reg.drop_last() =~= Seq::<WriteOpV>::empty());
        }
    }
    lemma_anchors_written(k3, d.anchors, lid);
    assert forall|i: int| 0 <= i < d.anchors.len() implies keys_of(d.anchors).contains(
        (#[trigger] d.anchors[i]).key,
    ) by {
        assert(keys_of(d.anchors)[i] == d.anchors[i].key);
    }
}

/// The writes of anchors change the dictionary at their keys alone.
proof fn lemma_anchors_written(k: Keyspaces, anchors: Seq<AnchorKeyV>, lid: Seq<u8>)
    ensures
        ({
            let after = write_ops::after_writes(k, anchor_ops(anchors, lid));
            &&& after.spatial == k.spatial
            &&& after.identity == k.identity
            &&& after.vectors == k.vectors
            &&& forall|x: Seq<u8>| #[trigger]
                after.dictionary.contains_key(x) == (k.dictionary.contains_key(x) || keys_of(
                    anchors,
                ).contains(x))
            &&& forall|x: Seq<u8>| #[trigger]
                keys_of(anchors).contains(x) ==> after.dictionary[x] == lid
            &&& forall|x: Seq<u8>|
                !(#[trigger] keys_of(anchors).contains(x)) ==> after.dictionary[x]
                    == k.dictionary[x]
        }),
    decreases anchors.len(),
{
    let ops = anchor_ops(anchors, lid);
    let keys = keys_of(anchors);
    if anchors.len() > 0 {
        lemma_anchors_written(k, anchors.drop_last(), lid);
        assert(ops.drop_last() =~= anchor_ops(anchors.drop_last(), lid));
        let less = keys_of(anchors.drop_last());
        let last = anchors.last().key;
        assert(keys =~= less.push(last));
        assert forall|x: Seq<u8>| #[trigger] keys.contains(x) == (less.contains(x) || x == last) by {
            if less.contains(x) {
                let i = choose|i: int| 0 <= i < less.len() && less[i] == x;
                assert(keys[i] == x);
            }
            if x == last {
                assert(keys[keys.len() - 1] == x);
            }
        }
    }
}

/// What a batch with this many records is answered before any is read.
pub enum BatchStart {
    /// Nothing to write.
    Empty(String),
    /// The records can be written.
    Ready(PutBatch),
}

/// The records of a batch, written together.
pub struct PutBatch {
    records: usize,
    seen: ByteSet,
    writes: Vec<WriteOp>,
    added: u64,
    ends: Option<(u128, u128)>,
}

/// What came of a batch: how many records it had, and the first and the last
/// identity.
#[derive(Clone, Copy, Debug, PartialEq, Eq, Structural)]
pub struct BatchResult {
    pub count: usize,
    pub first_lid: u128,
    pub last_lid: u128,
}

/// The anchor at `i` is taken: in the dictionary, by an earlier record of the
/// batch, or by an earlier anchor of the same record.
pub open spec fn taken_at(
    seen: Set<Seq<u8>>,
    keys: Seq<Seq<u8>>,
    found: Seq<bool>,
    i: int,
) -> bool {
    found[i] || seen.contains(keys[i]) || exists|j: int| 0 <= j < i && keys[j] == keys[i]
}

/// The first anchor that is taken is at `i`.
pub open spec fn first_taken_at(
    seen: Set<Seq<u8>>,
    keys: Seq<Seq<u8>>,
    found: Seq<bool>,
    i: int,
) -> bool {
    &&& 0 <= i < keys.len()
    &&& taken_at(seen, keys, found, i)
    &&& forall|j: int| 0 <= j < i ==> !(#[trigger] taken_at(seen, keys, found, j))
}

/// An anchor of the record is in the dictionary.
pub open spec fn some_stored(found: Seq<bool>) -> bool {
    exists|i: int| 0 <= i < found.len() && #[trigger] found[i]
}

/// Whether an anchor of the record is in the dictionary.
fn is_some_stored(found: &Vec<bool>) -> (r: bool)
    ensures
        r == some_stored(found@),
{
    let mut i: usize = 0;
    while i < found.len()
        invariant
            i <= found@.len(),
            forall|j: int| 0 <= j < i ==> !(#[trigger] found@[j]),
        decreases found@.len() - i,
    {
        if found[i] {
            return true;
        }
        i = i + 1;
    }
    false
}

impl PutBatch {
    /// The anchors of the records so far.
    pub closed spec fn claimed(&self) -> Set<Seq<u8>> {
        self.seen@
    }

    /// The writes so far.
    pub closed spec fn ops(&self) -> Seq<WriteOpV> {
        write_ops::ops_view(self.writes@)
    }

    /// How many records the batch has.
    pub closed spec fn size(&self) -> usize {
        self.records
    }

    /// How many records were added or skipped.
    pub closed spec fn count(&self) -> u64 {
        self.added
    }

    /// The identity of the first record, and of the last one so far.
    pub closed spec fn ends(&self) -> Option<(u128, u128)> {
        self.ends
    }

    /// Begins a batch of this many records. Without any there is nothing to
    /// write, and too many are refused together.
    pub fn begin(records: usize) -> (r: Result<BatchStart, XyzError>)
        ensures
            if records == 0 {
                r matches Ok(BatchStart::Empty(m)) && m@ == "0 records inserted (empty batch)"@
            } else if records > MAX_BATCH_SIZE {
                r matches Err(XyzError::InvalidQuery(m)) && m@ == "Batch too large: "@
                    + text::decimal(records as int) + " records (max 10000)"@
            } else {
                r matches Ok(BatchStart::Ready(b)) && b.size() == records && b.count() == 0
                    && b.ends() is None && b.ops() == Seq::<WriteOpV>::empty() && b.claimed()
                    == Set::<Seq<u8>>::empty()
            },
            r is Err <==> records > 10_000,
    {
        if records == 0 {
            return Ok(BatchStart::Empty("0 records inserted (empty batch)".to_owned()));
        }
        if records > MAX_BATCH_SIZE {
            let n = text::decimal_text(records as i128);
            return Err(
                XyzError::InvalidQuery(
                    text::join3("Batch too large: ", n.as_str(), " records (max 10000)"),
                ),
            );
        }
        Ok(BatchStart::Ready(Self::unchecked(records)))
    }

    /// A batch of this many records, however many there are.
    pub fn unchecked(records: usize) -> (r: PutBatch)
        ensures
            r.size() == records,
            r.count() == 0,
            r.ends() is None,
            r.ops() == Seq::<WriteOpV>::empty(),
            r.claimed() == Set::<Seq<u8>>::empty(),
    {
        let r = PutBatch {
            records,
            seen: ByteSet::new(),
            writes: Vec::new(),
            added: 0,
            ends: None,
        };
        assert(r.ops() =~= Seq::<WriteOpV>::empty());
        r
    }

    /// Claims the anchors of a record for it. Where no conflict is accepted, one
    /// that is taken is a duplicate. Where conflicts are accepted, a record whose
    /// anchor is stored is to be skipped, and claims nothing. `found` says which of
    /// them the dictionary holds; the result, whether the record is written.
    pub fn claim(
        &mut self,
        lobe: &str,
        keys: &Vec<AnchorKey>,
        found: &Vec<bool>,
        on_conflict: bool,
    ) -> (r: Result<bool, XyzError>)
        requires
            found@.len() == keys@.len(),
        ensures
            final(self).ops() == old(self).ops(),
            final(self).size() == old(self).size(),
            final(self).count() == old(self).count(),
            final(self).ends() == old(self).ends(),
            on_conflict && some_stored(found@) ==> r == Ok::<bool, XyzError>(false)
                && final(self).claimed() == old(self).claimed(),
            (on_conflict && !some_stored(found@)) || (!on_conflict && forall|i: int|
                !(#[trigger] first_taken_at(
                    old(self).claimed(),
                    keys_of(anchor_keys_view(keys@)),
                    found@,
                    i,
                ))) ==> r == Ok::<bool, XyzError>(true) && final(self).claimed() == old(
                self,
            ).claimed().union(keys_of(anchor_keys_view(keys@)).to_set()),
            !on_conflict ==> forall|i: int| #[trigger]
                first_taken_at(
                    old(self).claimed(),
                    keys_of(anchor_keys_view(keys@)),
                    found@,
                    i,
                ) ==> is_duplicate(r, keys@[i]@, lobe@, "batch"@),
    {
        let ghost kv = keys_of(anchor_keys_view(keys@));
        let ghost start = self.claimed();
        if on_conflict && is_some_stored(found) {
            return Ok(false);
        }
        let mut i: usize = 0;
        assert(start.union(kv.take(0).to_set()) =~= start) by {
            assert(kv.take(0) =~= Seq::<Seq<u8>>::empty());
        }
        while i < keys.len()
            invariant
                i <= keys@.len(),
                found@.len() == keys@.len(),
                kv == keys_of(anchor_keys_view(keys@)),
                self.claimed() == start.union(kv.take(i as int).to_set()),
                self.ops() == old(self).ops(),
                self.size() == old(self).size(),
                self.count() == old(self).count(),
                self.ends() == old(self).ends(),
                start == old(self).claimed(),
                !on_conflict ==> forall|j: int|
                    0 <= j < i ==> !(#[trigger] taken_at(start, kv, found@, j)),
            decreases keys@.len() - i,
        {
            let ghost before = self.claimed();
            let ghost key = keys@[i as int].key@;
            assert(kv[i as int] == key);
            let fresh = self.seen.insert(write_ops::copy_bytes(&keys[i].key));
            proof {
                let t = kv.take(i as int);
                assert(kv.take(i + 1) =~= t.push(key));
                assert(kv.take(i + 1).to_set() =~= t.to_set().insert(key)) by {
                    assert forall|x: Seq<u8>| #[trigger]
                        kv.take(i + 1).to_set().contains(x) == t.to_set().insert(key).contains(
                            x,
                        ) by {
                        assert(kv.take(i + 1).to_set().contains(x) == kv.take(i + 1).contains(x));
                        assert(t.to_set().contains(x) == t.contains(x));
                        if t.contains(x) {
                            let j = choose|j: int| 0 <= j < t.len() && t[j] == x;
                            assert(kv.take(i + 1)[j] == x);
                        }
                        if x == key {
                            assert(kv.take(i + 1)[i as int] == x);
                        }
                    }
                }
                assert(self.claimed() =~= start.union(kv.take(i + 1).to_set()));
                let again = exists|j: int| 0 <= j < i && kv[j] == kv[i as int];
                assert(t.contains(key) == again) by {
                    if t.contains(key) {
                        let j = choose|j: int| 0 <= j < t.len() && t[j] == key;
                        assert(kv[j] == kv[i as int]);
                    }
                    if again {
                        let j = choose|j: int| 0 <= j < i && kv[j] == kv[i as int];
                        assert(t[j] == key);
                    }
                }
                assert(taken_at(start, kv, found@, i as int) == (found@[i as int] || !fresh));
            }
            if !on_conflict && (!fresh || found[i]) {
                proof {
                    assert(first_taken_at(start, kv, found@, i as int));
                    assert forall|k: int| #[trigger] first_taken_at(start, kv, found@, k) implies k
                        == i by {
                        if k < i {
                            assert(!taken_at(start, kv, found@, k));
                        } else if i < k {
                            assert(!taken_at(start, kv, found@, i as int));
                        }
                    }
                }
                return duplicate(&keys[i], lobe, "batch".to_owned());
            }
            i = i + 1;
        }
        assert(kv.take(i as int) =~= kv);
        Ok(true)
    }

    /// Adds the writes of a record.
    pub fn push(&mut self, lid: u128, ops: Vec<WriteOp>)
        requires
            old(self).count() < u64::MAX,
        ensures
            final(self).ops() == old(self).ops() + write_ops::ops_view(ops@),
            final(self).size() == old(self).size(),
            final(self).count() == old(self).count() + 1,
            final(self).claimed() == old(self).claimed(),
            final(self).ends() == match old(self).ends() {
                Some(e) => Some((e.0, lid)),
                None => Some((lid, lid)),
            },
    {
        let ghost before = self.writes@;
        let ghost more = ops@;
        let mut ops = ops;
        self.writes.append(&mut ops);
        assert(write_ops::ops_view(self.writes@) =~= write_ops::ops_view(before)
            + write_ops::ops_view(more));
        self.ends = match self.ends {
            Some(e) => Some((e.0, lid)),
            None => Some((lid, lid)),
        };
        self.added = self.added + 1;
    }

    /// The time in the spatial key of the next record: the records of a batch
    /// follow each other.
    pub fn next_micros(&self, now: u64) -> (r: u64)
        requires
            now + self.count() <= u64::MAX,
        ensures
            r == now + self.count(),
    {
        now + self.added
    }

    /// The writes, and what is told of the batch.
    pub fn finish(self) -> (r: (Vec<WriteOp>, BatchResult))
        ensures
            write_ops::ops_view(r.0@) == self.ops(),
            r.1.count == self.size(),
            (r.1.first_lid, r.1.last_lid) == match self.ends() {
                Some(e) => e,
                None => (0, 0),
            },
    {
        let (first_lid, last_lid): (u128, u128) = match self.ends {
            Some(e) => e,
            None => (0, 0),
        };
        (self.writes, BatchResult { count: self.records, first_lid, last_lid })
    }
}

/// Whether the number of writes is saved after a batch of `n` made it `total`.
pub fn writes_save_due(total: u64, n: u64) -> (r: bool)
    ensures
        r == (total % WRITES_SAVED_EVERY < n),
        r == (total % 10_000 < n),
{
    total % WRITES_SAVED_EVERY < n
}

impl<
    H: Fn(&str) -> u64,
    R: Fn(&Value) -> String,
    C: Fn(&Fields) -> String,
    D: Fn(u16, &str, &str) -> Vec<u8>,
    S: Fn(Place) -> Vec<u8>,
    G: Fn(&[u8]) -> u64,
    B: Fn(u128) -> Vec<u8>,
    F: Fn(&[u8]) -> u128,
    T: Fn(u128) -> String,
> Writer<H, R, C, D, S, G, B, F, T> {
    /// Drafts the next record of a batch, whose marks were checked, and claims
    /// its anchors. `found` says which of them the dictionary holds, in their
    /// order. Where conflicts are accepted, a record whose anchor is stored is
    /// skipped: nothing is drafted for it and nothing claimed.
    pub fn draft_in_batch<A: Fn(&Value) -> u16>(
        &self,
        batch: &mut PutBatch,
        stamp: Stamp,
        lobe: &str,
        fields: Fields,
        markers: &[(String, Value)],
        anchors: &[String],
        found: &Vec<bool>,
        on_conflict: bool,
        link: Option<u64>,
        spec: Option<&GravitySpec>,
        axis: &SatelliteAxis<A>,
    ) -> (r: Result<Option<Draft>, XyzError>)
        requires
            self.sound(),
            axis.sound(),
            old(batch).count() < u64::MAX,
            found@.len() == self.record_anchors(
                stamp.lobe_id,
                text::names(anchors@),
                record::fields_view(fields@),
            ).len(),
        ensures
            final(batch).ops() == old(batch).ops(),
            final(batch).size() == old(batch).size(),
            final(batch).ends() == old(batch).ends(),
            final(batch).count() == old(batch).count() + if on_conflict && some_stored(found@) {
                1int
            } else {
                0int
            },
            on_conflict && some_stored(found@) ==> r == Ok::<Option<Draft>, XyzError>(None)
                && final(batch).claimed() == old(batch).claimed(),
            ({
                let fv = record::fields_view(fields@);
                let av = text::names(anchors@);
                let keys = self.record_anchors(stamp.lobe_id, av, fv);
                let taken = |i: int|
                    first_taken_at(old(batch).claimed(), keys_of(keys), found@, i);
                &&& (on_conflict && !some_stored(found@)) || (!on_conflict && forall|i: int|
                    !(#[trigger] taken(i))) ==> r is Ok && r->Ok_0 is Some && r->Ok_0->Some_0@ == self.drafted(
                    stamp,
                    lobe@,
                    fv,
                    self.placer.placed(
                        link,
                        placement::opt_spec(spec),
                        placement::markers_view(markers@),
                        av,
                        fv,
                    ),
                    keys,
                    axis.satellite(fv),
                ) && final(batch).claimed() == old(batch).claimed().union(keys_of(keys).to_set())
                &&& !on_conflict ==> forall|i: int| #[trigger]
                    taken(i) ==> is_duplicate(r, keys[i], lobe@, "batch"@)
            }),
    {
        let keys = self.anchor_keys(stamp.lobe_id, anchors, &fields);
        let ghost kv = self.record_anchors(
            stamp.lobe_id,
            text::names(anchors@),
            record::fields_view(fields@),
        );
        let ghost start = batch.claimed();
        assert(keys@.len() == kv.len());
        let c = batch.claim(lobe, &keys, found, on_conflict);
        proof {
            let taken = |i: int| first_taken_at(start, keys_of(kv), found@, i);
            assert forall|i: int| #[trigger] taken(i) implies first_taken_at(
                start,
                keys_of(kv),
                found@,
                i,
            ) && kv[i] == keys@[i]@ by {}
            if !on_conflict && (forall|i: int| !(#[trigger] taken(i))) {
                assert forall|i: int| !(#[trigger] first_taken_at(start, keys_of(kv), found@, i)) by {
                    assert(!taken(i));
                }
            }
        }
        match c {
            Err(e) => Err(e),
            Ok(false) => {
                batch.added = batch.added + 1;
                Ok(None)
            },
            Ok(true) => {
                let placed = self.placer.place(link, spec, markers, anchors, &fields);
                Ok(Some(self.draft(stamp, lobe, fields, placed, keys, axis)))
            },
        }
    }

    /// Drafts the next record of a bulk write, which has no anchors.
    pub fn draft_in_bulk<A: Fn(&Value) -> u16>(
        &self,
        stamp: Stamp,
        lobe: &str,
        rec: BulkRecord,
        spec: Option<&GravitySpec>,
        axis: &SatelliteAxis<A>,
    ) -> (r: Result<Draft, XyzError>)
        requires
            self.sound(),
            axis.sound(),
        ensures
            ({
                let m = placement::markers_view(rec.gravity_fields@);
                let fv = placement::typed(lobe@, record::fields_view(rec.fields@));
                if placement::undeclared_composite(m.len(), placement::opt_spec(spec)) {
                    r matches Err(XyzError::InvalidQuery(t)) && t@ == placement::multi_marker_text(
                        lobe@,
                        m,
                    )
                } else {
                    r matches Ok(d) && d@ == self.drafted(
                        stamp,
                        lobe@,
                        fv,
                        self.placer.placed(None, placement::opt_spec(spec), m, Seq::empty(), fv),
                        Seq::empty(),
                        axis.satellite(fv),
                    )
                }
            }),
    {
        let fields = placement::inject_type(lobe, rec.fields);
        placement::check_markers(lobe, rec.gravity_fields.as_slice(), spec)?;
        let none: Vec<String> = Vec::new();
        assert(text::names(none@) =~= Seq::<Seq<char>>::empty());
        let placed = self.placer.place(
            None,
            spec,
            rec.gravity_fields.as_slice(),
            none.as_slice(),
            &fields,
        );
        let keys: Vec<AnchorKey> = Vec::new();
        assert(anchor_keys_view(keys@) =~= Seq::<AnchorKeyV>::empty());
        Ok(self.draft(stamp, lobe, fields, placed, keys, axis))
    }
}

/// What is told of a bulk write; the number of its records is cut to 32 bits.
pub fn bulk_result(b: BatchResult) -> (r: BulkInsertResult)
    ensures
        r.count == b.count as u32,
        r.first_lid == b.first_lid,
        r.last_lid == b.last_lid,
{
    BulkInsertResult {
        count: #[verifier::truncate] (b.count as u32),
        first_lid: b.first_lid,
        last_lid: b.last_lid,
    }
}

/// A record for a bulk write: its fields, and those that place it.
pub struct BulkRecord {
    pub fields: Fields,
    pub gravity_fields: Vec<(String, Value)>,
}

/// What came of a bulk write.
#[derive(Clone, Copy, Debug, PartialEq, Eq, Structural)]
pub struct BulkInsertResult {
    pub count: u32,
    pub first_lid: u128,
    pub last_lid: u128,
}

impl<
    H: Fn(&str) -> u64,
    R: Fn(&Value) -> String,
    C: Fn(&Fields) -> String,
    D: Fn(u16, &str, &str) -> Vec<u8>,
    S: Fn(Place) -> Vec<u8>,
    G: Fn(&[u8]) -> u64,
    B: Fn(u128) -> Vec<u8>,
    F: Fn(&[u8]) -> u128,
    T: Fn(u128) -> String,
> Writer<H, R, C, D, S, G, B, F, T> {
    /// The anchors of a record are the declared ones that it has, in the order in which
    /// they are declared, each with the canonical text of its value.
    pub proof fn law_anchors_are_those_it_has(
        &self,
        lobe_id: u16,
        anchors: Seq<Seq<char>>,
        fields: Map<Seq<char>, ValueV>,
    )
        ensures
            self.record_anchors(lobe_id, anchors, fields).map_values(|k: AnchorKeyV| k.name)
                == anchors.filter(|n: Seq<char>| fields.contains_key(n)),
            forall|i: int|
                0 <= i < self.record_anchors(lobe_id, anchors, fields).len() ==> {
                    let k = #[trigger] self.record_anchors(lobe_id, anchors, fields)[i];
                    &&& fields.contains_key(k.name)
                    &&& k.value == self.placer.canon.anchor_text(fields[k.name])
                },
        decreases anchors.len(),
    {
        reveal(Seq::filter);
        let has = |n: Seq<char>| fields.contains_key(n);
        let name = |k: AnchorKeyV| k.name;
        let r = self.record_anchors(lobe_id, anchors, fields);
        if anchors.len() > 0 {
            let d = anchors.drop_last();
            self.law_anchors_are_those_it_has(lobe_id, d, fields);
            let before = self.record_anchors(lobe_id, d, fields);
            if fields.contains_key(anchors.last()) {
                assert(r.map_values(name) =~= before.map_values(name).push(anchors.last()));
            }
            assert forall|i: int| 0 <= i < r.len() implies ({
                let k = #[trigger] r[i];
                &&& fields.contains_key(k.name)
                &&& k.value == self.placer.canon.anchor_text(fields[k.name])
            }) by {
                if i < before.len() {
                    assert(r[i] == before[i]);
                }
            }
        } else {
            assert(r.map_values(name) =~= anchors.filter(has));
        }
    }

    /// The entry of an anchor is where the storage layer keeps the value of that anchor
    /// in that lobe.
    pub proof fn law_anchor_entry_is_handed_in(
        &self,
        lobe_id: u16,
        anchors: Seq<Seq<char>>,
        fields: Map<Seq<char>, ValueV>,
        i: int,
        name: &str,
        value: &str,
        entry: Vec<u8>,
    )
        requires
            self.sound(),
            0 <= i < self.record_anchors(lobe_id, anchors, fields).len(),
            name@ == self.record_anchors(lobe_id, anchors, fields)[i].name,
            value@ == self.placer.canon.anchor_text(fields[name@]),
            self.layout.dictionary_key.ensures((lobe_id, name, value), entry),
        ensures
            self.record_anchors(lobe_id, anchors, fields)[i].key == entry@,
        decreases anchors.len(),
    {
        let d = anchors.drop_last();
        let before = self.record_anchors(lobe_id, d, fields);
        if i < before.len() {
            self.law_anchor_entry_is_handed_in(lobe_id, d, fields, i, name, value, entry);
        } else {
            assert(self.layout.is_dictionary_key(lobe_id, name@, value@, entry@));
        }
    }

    /// A new record is written exactly where none of its anchors is taken. Where one is,
    /// the request fails, or, where it says so, goes to the record that has the first of
    /// those taken.
    pub proof fn law_put_gives_way(
        &self,
        keys: Seq<AnchorKeyV>,
        found: Seq<Option<Vec<u8>>>,
        on_conflict: bool,
        lobe: Seq<char>,
        r: Result<Option<u128>, XyzError>,
        i: int,
    )
        requires
            self.is_conflict(keys, found, on_conflict, lobe, r),
        ensures
            r matches Ok(None) <==> forall|j: int|
                0 <= j < found.len() ==> (#[trigger] found[j]) is None,
            0 <= i < found.len() && found[i] is Some && (forall|j: int|
                0 <= j < i ==> (#[trigger] found[j]) is None) ==> {
                let e = found[i]->Some_0@;
                &&& !on_conflict ==> (r matches Err(XyzError::DuplicateAnchor {
                    anchor,
                    value,
                    ..
                }) && anchor@ == keys[i].name && value@ == keys[i].value)
                &&& on_conflict && e.len() == 16 ==> r == Ok::<Option<u128>, XyzError>(
                    Some(self.layout.lid_of(e)),
                )
                &&& on_conflict && e.len() != 16 ==> r is Err
            },
    {
        if forall|j: int| 0 <= j < found.len() ==> (#[trigger] found[j]) is None {
            assert forall|k: int| !first_taken(found, k) by {}
        } else {
            let j = choose|j: int| 0 <= j < found.len() && !((#[trigger] found[j]) is None);
            lemma_first_taken(found, j);
            let k = choose|k: int| #[trigger] first_taken(found, k);
            assert(first_taken(found, k));
        }
        if 0 <= i < found.len() && found[i] is Some && (forall|j: int|
            0 <= j < i ==> (#[trigger] found[j]) is None) {
            assert(first_taken(found, i));
        }
    }

    /// The draft of a record has the fields, the lobe and the identity that it is
    /// written with, and its two times are when it is written. It lies where the storage
    /// layer puts its lobe, the hash that places it, its satellite and its type.
    pub proof fn law_draft_is_what_is_put(
        &self,
        stamp: Stamp,
        lobe: Seq<char>,
        fields: Map<Seq<char>, ValueV>,
        placed: Placed,
        anchors: Seq<AnchorKeyV>,
        satellite: Option<u16>,
        p: Place,
        key: Vec<u8>,
    )
        requires
            self.sound(),
            self.layout.spatial_key.ensures((p,), key),
            p.lobe_id == stamp.lobe_id,
            p.gravity_hash == placed.hash,
            p.satellite == satellite,
            p.type_id == self.placer.type_id(fields),
            p.micros == stamp.key_micros,
            p.seq == stamp.seq,
        ensures
            ({
                let d = self.drafted(stamp, lobe, fields, placed, anchors, satellite);
                &&& d.record.fields == fields
                &&& d.record.lobe_name == lobe
                &&& d.record.lid == stamp.lid
                &&& d.record.created_at == d.record.updated_at
                &&& stamp.created_micros <= i64::MAX ==> d.record.created_at
                    == stamp.created_micros
                &&& d.spatial_key == key@
                &&& d.anchors == anchors
            }),
    {
        assert(self.layout.is_spatial_key(p, key@));
    }
}

proof fn lemma_first_taken(found: Seq<Option<Vec<u8>>>, j: int)
    requires
        0 <= j < found.len(),
        found[j] is Some,
    ensures
        exists|k: int| #[trigger] first_taken(found, k),
    decreases j,
{
    if forall|i: int| 0 <= i < j ==> (#[trigger] found[i]) is None {
        assert(first_taken(found, j));
    } else {
        let i = choose|i: int| 0 <= i < j && !((#[trigger] found[i]) is None);
        lemma_first_taken(found, i);
    }
}

/// After a merge a field has the value that was merged in, or else the one that it had.
pub proof fn law_merge_keeps_what_is_not_written(
    old: Map<Seq<char>, ValueV>,
    new: Map<Seq<char>, ValueV>,
    name: Seq<char>,
)
    ensures
        merged(old, new).contains_key(name) <==> old.contains_key(name) || new.contains_key(name),
        new.contains_key(name) ==> merged(old, new)[name] == new[name],
        old.contains_key(name) && !new.contains_key(name) ==> merged(old, new)[name] == old[name],
{
}

/// A vector is kept in a column of its own exactly where the field that is searched by
/// similarity holds one.
pub proof fn law_column_holds_searched_vector(
    field: Seq<char>,
    fields: Map<Seq<char>, ValueV>,
    v: Seq<u32>,
)
    ensures
        hoisted(None, fields) is None,
        !fields.contains_key(field) ==> hoisted(Some(field), fields) is None,
        fields.contains_key(field) && fields[field] == ValueV::Vector(v) ==> hoisted(
            Some(field),
            fields,
        ) == Some(v.len()),
        fields.contains_key(field) && !(fields[field] is Vector) ==> hoisted(
            Some(field),
            fields,
        ) is None,
{
}

/// After a changed record is written that stays where it is, its key leads to its new
/// bytes, its vector lies in the column under that key where it has one, and nothing
/// else is touched but the field registry.
pub proof fn law_update_is_found(k: Keyspaces, key: Seq<u8>, e: EncodedRecordV, other: Seq<u8>)
    ensures
        ({
            let a = write_ops::after_writes(k, update_ops(key, e));
            &&& a.spatial.contains_key(key) && a.spatial[key] == e.bytes
            &&& other != key ==> (a.spatial.contains_key(other) <==> k.spatial.contains_key(other))
                && a.spatial[other] == k.spatial[other]
            &&& a.identity == k.identity
            &&& e.column matches Some(c) ==> a.vectors.contains_key(key) && a.vectors[key] == c
            &&& e.column is None ==> a.vectors == k.vectors
            &&& e.registry is None ==> a.dictionary == k.dictionary
        }),
{
    let op = WriteOpV::PutSpatial(key, e.bytes);
    let extras = write_ops::column_op(key, e) + write_ops::registry_op(e);
    assert(update_ops(key, e) =~= seq![op] + extras);
    write_ops::law_writes_compose(k, seq![op], extras);
    assert(seq![op].drop_last() =~= Seq::<WriteOpV>::empty());
    assert(seq![op].last() == op);
    assert(write_ops::after_writes(k, Seq::<WriteOpV>::empty()) == k);
    let b = write_ops::after_writes(k, seq![op]);
    assert(b == write_ops::after_write(k, op));
    write_ops::law_extras_are_written(b, key, e);
}

/// In a batch a record is a duplicate exactly where one of its anchors is in the
/// dictionary, or was claimed by an earlier record, or occurs twice among its own.
pub proof fn law_batch_claims_each_anchor_once(
    seen: Set<Seq<u8>>,
    keys: Seq<Seq<u8>>,
    found: Seq<bool>,
)
    requires
        found.len() == keys.len(),
    ensures
        (exists|i: int| #[trigger] first_taken_at(seen, keys, found, i)) <==> {
            ||| exists|i: int| 0 <= i < found.len() && #[trigger] found[i]
            ||| exists|i: int| 0 <= i < keys.len() && seen.contains(#[trigger] keys[i])
            ||| exists|i: int, j: int|
                0 <= i < j < keys.len() && #[trigger] keys[i] == #[trigger] keys[j]
        },
{
    if exists|i: int| #[trigger] first_taken_at(seen, keys, found, i) {
        let i = choose|i: int| #[trigger] first_taken_at(seen, keys, found, i);
        assert(taken_at(seen, keys, found, i));
        if !found[i] && !seen.contains(keys[i]) {
            let j = choose|j: int| 0 <= j < i && keys[j] == keys[i];
            assert(keys[j] == keys[i]);
        }
    }
    if exists|i: int| 0 <= i < found.len() && #[trigger] found[i] {
        let i = choose|i: int| 0 <= i < found.len() && #[trigger] found[i];
        lemma_first_taken_at(seen, keys, found, i);
    }
    if exists|i: int| 0 <= i < keys.len() && seen.contains(#[trigger] keys[i]) {
        let i = choose|i: int| 0 <= i < keys.len() && seen.contains(#[trigger] keys[i]);
        lemma_first_taken_at(seen, keys, found, i);
    }
    if exists|i: int, j: int|
        0 <= i < j < keys.len() && #[trigger] keys[i] == #[trigger] keys[j] {
        let (i, j) = choose|i: int, j: int|
            0 <= i < j < keys.len() && #[trigger] keys[i] == #[trigger] keys[j];
        lemma_first_taken_at(seen, keys, found, j);
    }
}

proof fn lemma_first_taken_at(
    seen: Set<Seq<u8>>,
    keys: Seq<Seq<u8>>,
    found: Seq<bool>,
    i: int,
)
    requires
        0 <= i < keys.len(),
        taken_at(seen, keys, found, i),
    ensures
        exists|k: int| #[trigger] first_taken_at(seen, keys, found, k),
    decreases i,
{
    if forall|j: int| 0 <= j < i ==> !(#[trigger] taken_at(seen, keys, found, j)) {
        assert(first_taken_at(seen, keys, found, i));
    } else {
        let j = choose|j: int| 0 <= j < i && #[trigger] taken_at(seen, keys, found, j);
        lemma_first_taken_at(seen, keys, found, j);
    }
}

impl<
    H: Fn(&str) -> u64,
    R: Fn(&Value) -> String,
    C: Fn(&Fields) -> String,
    D: Fn(u16, &str, &str) -> Vec<u8>,
    S: Fn(Place) -> Vec<u8>,
    G: Fn(&[u8]) -> u64,
    B: Fn(u128) -> Vec<u8>,
    F: Fn(&[u8]) -> u128,
    T: Fn(u128) -> String,
> Writer<H, R, C, D, S, G, B, F, T> {
    /// A request to write a record writes it as a new one, with its fields and the place
    /// that is computed for it, where none of its anchors is taken. Where one is, it is
    /// refused, or goes to the record that has the first of those taken.
    pub proof fn law_put_writes_or_gives_way(
        &self,
        stamp: Stamp,
        lobe: Seq<char>,
        fields: Map<Seq<char>, ValueV>,
        markers: Seq<(Seq<char>, ValueV)>,
        anchors: Seq<Seq<char>>,
        found: Seq<Option<Vec<u8>>>,
        on_conflict: bool,
        link: Option<u64>,
        spec: Option<GravitySpecV>,
        satellite: Option<u16>,
        r: Result<PutOutcome, XyzError>,
    )
        requires
            self.is_put(
                stamp,
                lobe,
                fields,
                markers,
                anchors,
                found,
                on_conflict,
                link,
                spec,
                satellite,
                r,
            ),
        ensures
            (r matches Ok(PutOutcome::Insert(_))) <==> forall|j: int|
                0 <= j < found.len() ==> (#[trigger] found[j]) is None,
            r matches Ok(PutOutcome::Insert(d)) ==> d@.record.fields == fields && d@.record.lid
                == stamp.lid && d@.record.lobe_name == lobe && d@.anchors == self.record_anchors(
                stamp.lobe_id,
                anchors,
                fields,
            ) && d@.placed == self.placer.placed(link, spec, markers, anchors, fields),
            !on_conflict ==> !(r matches Ok(PutOutcome::Update(_))),
    {
        let keys = self.record_anchors(stamp.lobe_id, anchors, fields);
        let c = choose|c: Result<Option<u128>, XyzError>|
            self.is_conflict(keys, found, on_conflict, lobe, c) && match c {
                Ok(None) => r matches Ok(PutOutcome::Insert(d)) && d@ == self.drafted(
                    stamp,
                    lobe,
                    fields,
                    self.placer.placed(link, spec, markers, anchors, fields),
                    keys,
                    satellite,
                ),
                Ok(Some(lid)) => r matches Ok(PutOutcome::Update(l)) && l == lid,
                Err(e) => r == Err::<PutOutcome, XyzError>(e),
            };
        self.law_put_gives_way(keys, found, on_conflict, lobe, c, 0);
        if !on_conflict && c matches Ok(Some(_)) {
            assert(exists|j: int| 0 <= j < found.len() && !((#[trigger] found[j]) is None)) by {
                if forall|j: int| 0 <= j < found.len() ==> (#[trigger] found[j]) is None {
                    assert(c matches Ok(None));
                }
            }
            let j = choose|j: int| 0 <= j < found.len() && !((#[trigger] found[j]) is None);
            lemma_first_taken(found, j);
            let k = choose|k: int| #[trigger] first_taken(found, k);
            assert(first_taken(found, k));
        }
    }
}

} // verus!
