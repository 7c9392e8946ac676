//! Changing records.

use crate::ast;
use crate::ast::Literal;
use crate::delete;
use crate::error;
use crate::error::XyzError;
use crate::filter;
use crate::gravity_spec;
use crate::gravity_spec::{GravitySpec, GravitySpecV};
use crate::layout;
use crate::layout::Place;
use crate::placement;
use crate::put::Writer;
use crate::record;
use crate::record::{Fields, Record, RecordV};
use crate::satellite_spec::SatelliteAxis;
use crate::sorted_map::SortedMap;
use crate::text;
use crate::value::{Value, ValueV};
use crate::write_ops;
use crate::write_ops::{EncodedRecord, EncodedRecordV, Keyspaces, WriteOp, WriteOpV};
use vstd::prelude::*;

verus! {

/// All parameters of the assignments are bound.
pub open spec fn assignments_bound(s: Seq<(String, Literal)>) -> bool {
    forall|i: int| 0 <= i < s.len() ==> ast::bound((#[trigger] s[i]).1@)
}

/// The fields after the assignments, in order.
pub open spec fn assigned(fields: Map<Seq<char>, ValueV>, s: Seq<(String, Literal)>) -> Map<
    Seq<char>,
    ValueV,
>
    decreases s.len(),
{
    if s.len() == 0 {
        fields
    } else {
        assigned(fields, s.drop_last()).insert(s.last().0@, filter::literal_value(s.last().1@))
    }
}

/// The record after the assignments, changed at `now`.
pub fn assign(rec: &Record, assignments: &Vec<(String, Literal)>, now: i64) -> (r: Record)
    requires
        assignments_bound(assignments@),
    ensures
        r@ == (RecordV {
            fields: assigned(rec@.fields, assignments@),
            updated_at: now,
            ..rec@
        }),
{
    let mut r = rec.clone_record();
    let mut i: usize = 0;
    assert(assignments@.take(0) =~= Seq::<(String, Literal)>::empty());
    while i < assignments.len()
        invariant
            i <= assignments@.len(),
            assignments_bound(assignments@),
            r@.lid == rec@.lid,
            r@.lobe_name == rec@.lobe_name,
            r@.created_at == rec@.created_at,
            r@.fields == assigned(rec@.fields, assignments@.take(i as int)),
        decreases assignments@.len() - i,
    {
        let ghost before = r.fields@;
        let ghost s = assignments@;
        let v = filter::literal_to_value(&assignments[i].1);
        let ghost vv = v@;
        r.fields.insert(assignments[i].0.clone(), v);
        proof {
            assert(s.take(i + 1).drop_last() =~= s.take(i as int));
            assert(s.take(i + 1).last() == s[i as int]);
            assert(record::fields_view(r.fields@) =~= record::fields_view(before).insert(
                s[i as int].0@,
                vv,
            ));
        }
        i = i + 1;
    }
    assert(assignments@.take(i as int) =~= assignments@);
    r.updated_at = now;
    r
}

/// The anchors of each lobe.
pub type LobeAnchors = SortedMap<Vec<String>>;

/// The field is an anchor of the lobe.
pub open spec fn anchors_field(
    anchors: Map<Seq<char>, Vec<String>>,
    lobe: Seq<char>,
    field: Seq<char>,
) -> bool {
    anchors.contains_key(lobe) && text::names(anchors[lobe]@).contains(field)
}

/// The assignment at `j` changes an anchor of the record at `i`.
pub open spec fn changes_anchor(
    records: Seq<Record>,
    s: Seq<(String, Literal)>,
    anchors: Map<Seq<char>, Vec<String>>,
    i: int,
    j: int,
) -> bool {
    0 <= i < records.len() && 0 <= j < s.len() && anchors_field(
        anchors,
        records[i].lobe_name@,
        s[j].0@,
    )
}

/// The first such pair, record by record.
pub open spec fn first_anchor_change(
    records: Seq<Record>,
    s: Seq<(String, Literal)>,
    anchors: Map<Seq<char>, Vec<String>>,
    i: int,
    j: int,
) -> bool {
    &&& changes_anchor(records, s, anchors, i, j)
    &&& forall|a: int, b: int| #[trigger]
        changes_anchor(records, s, anchors, a, b) ==> i < a || (i == a && j <= b)
}

/// Why changing an anchor is refused.
pub open spec fn anchor_change_text(field: Seq<char>, lobe: Seq<char>) -> Seq<char> {
    "cannot SET anchor field '"@ + field + "' on lobe '"@ + lobe
        + "': anchors are immutable identity"@
}

/// Refuses to change an anchor: a record's identity is not edited.
#[verifier::loop_isolation(false)]
pub fn check_assignments(
    records: &Vec<Record>,
    assignments: &Vec<(String, Literal)>,
    anchors: &LobeAnchors,
) -> (r: Result<(), XyzError>)
    ensures
        (forall|i: int, j: int|
            !(#[trigger] changes_anchor(records@, assignments@, anchors@, i, j))) ==> r is Ok,
        forall|i: int, j: int| #[trigger]
            first_anchor_change(records@, assignments@, anchors@, i, j) ==> error::is_invalid(
                r,
                anchor_change_text(assignments@[j].0@, records@[i].lobe_name@),
            ),
{
    let mut i: usize = 0;
    while i < records.len()
        invariant
            i <= records@.len(),
            forall|a: int, b: int|
                a < i ==> !(#[trigger] changes_anchor(records@, assignments@, anchors@, a, b)),
        decreases records@.len() - i,
    {
        let lobe = records[i].lobe_name.as_str();
        if let Some(names) = anchors.get(lobe) {
            let mut j: usize = 0;
            while j < assignments.len()
                invariant
                    i < records@.len(),
                    j <= assignments@.len(),
                    lobe@ == records@[i as int].lobe_name@,
                    anchors@.contains_key(lobe@) && anchors@[lobe@] == *names,
                    forall|b: int|
                        0 <= b < j ==> !(#[trigger] changes_anchor(
                            records@,
                            assignments@,
                            anchors@,
                            i as int,
                            b,
                        )),
                decreases assignments@.len() - j,
            {
                if text::names_contain(names.as_slice(), assignments[j].0.as_str()) {
                    proof {
                        assert(changes_anchor(records@, assignments@, anchors@, i as int, j as int));
                        assert forall|a: int, b: int| #[trigger]
                            first_anchor_change(records@, assignments@, anchors@, a, b) implies a
                            == i && b == j by {
                            assert(changes_anchor(records@, assignments@, anchors@, a, b));
                        }
                    }
                    let mut m = text::join3(
                        "cannot SET anchor field '",
                        assignments[j].0.as_str(),
                        "' on lobe '",
                    );
                    m.append(lobe);
                    m.append("': anchors are immutable identity");
                    return Err(XyzError::InvalidQuery(m));
                }
                assert(!changes_anchor(records@, assignments@, anchors@, i as int, j as int));
                j = j + 1;
            }
        }
        assert forall|b: int|
            !(#[trigger] changes_anchor(records@, assignments@, anchors@, i as int, b)) by {}
        i = i + 1;
    }
    Ok(())
}

/// The changed record goes to another place.
pub open spec fn moves(old_hash: u64, new_hash: u64, old_sat: u16, new_sat: Option<u16>) -> bool {
    new_hash != old_hash || (new_sat matches Some(s) && s != old_sat)
}

/// The writes of a changed record: all at its key where it stays; where it
/// moves, from the old key to the new one.
pub open spec fn change_ops(
    old_key: Seq<u8>,
    new_key: Option<Seq<u8>>,
    lid: Seq<u8>,
    e: EncodedRecordV,
) -> Seq<WriteOpV> {
    match new_key {
        Some(n) => seq![
            WriteOpV::RemoveSpatial(old_key),
            WriteOpV::PutSpatial(n, e.bytes),
            WriteOpV::PutIdentity(lid, n),
            WriteOpV::RemoveVectors(old_key),
        ] + write_ops::column_op(n, e) + write_ops::registry_op(e),
        None => seq![WriteOpV::PutSpatial(old_key, e.bytes)] + write_ops::column_op(old_key, e)
            + write_ops::registry_op(e),
    }
}

/// What is told of a change of `n` out of the records found.
pub open spec fn set_text(found: int, n: u64) -> Seq<char> {
    if found == 0 {
        "0 records updated"@
    } else {
        text::decimal(n as int) + " record(s) updated"@
    }
}

/// What is told of a change.
pub fn set_summary(records: &Vec<Record>, changed: u64) -> (r: (Option<u128>, String))
    ensures
        r.0 == delete::first_lid(records@),
        r.1@ == set_text(records@.len() as int, changed),
{
    if records.len() == 0 {
        return (None, "0 records updated".to_owned());
    }
    let n = text::decimal_text(changed as i128);
    (Some(records[0].lid), text::join2(n.as_str(), " record(s) updated"))
}

impl<
    H: Fn(&str) -> u64,
    R: Fn(&Value) -> String,
    C: Fn(&Fields) -> String,
    D: Fn(u16, &str, &str) -> Vec<u8>,
    S: Fn(Place) -> Vec<u8>,
    G: Fn(&[u8]) -> u64,
    B: Fn(u128) -> Vec<u8>,
    F: Fn(&[u8]) -> u128,
    T: Fn(u128) -> String,
> Writer<H, R, C, D, S, G, B, F, T> {
    /// The key that a changed record moves to, if it moves: where its fields
    /// place it now, under another hash or in another satellite than before.
    pub open spec fn moved_key(
        &self,
        key: Seq<u8>,
        spec: Option<GravitySpecV>,
        anchors: Seq<Seq<char>>,
        fields: Map<Seq<char>, ValueV>,
        new_sat: Option<u16>,
        micros: u64,
        seq: u64,
    ) -> Option<Seq<u8>> {
        let h = self.placer.replaced_hash(spec, anchors, fields);
        if moves(self.layout.gravity_hash_of(key), h, layout::satellite_of(key), new_sat) {
            Some(
                self.layout.spatial_key_of(
                    Place {
                        lobe_id: layout::lobe_of(key),
                        gravity_hash: h,
                        satellite: new_sat,
                        type_id: self.placer.type_id(fields),
                        micros,
                        seq,
                    },
                ),
            )
        } else {
            None
        }
    }

    /// After a change a record lies where a query with its values looks: it moves
    /// there, or its key already has the hash and the satellite.
    pub proof fn law_changed_record_lies_where_query_looks<A: Fn(&Value) -> u16>(
        &self,
        key: Seq<u8>,
        spec: GravitySpecV,
        anchors: Seq<Seq<char>>,
        fields: Map<Seq<char>, ValueV>,
        axis: SatelliteAxis<A>,
        filters: Seq<(Seq<char>, record::FilterOp, ValueV)>,
        micros: u64,
        seq: u64,
    )
        requires
            placement::pinned_as(filters, gravity_spec::spec_fields(spec), fields),
            axis.spec matches Some(s) ==> placement::pinned_as(filters, seq![s.field@], fields),
        ensures
            gravity_spec::pinned_hash(self.placer.canon, spec, filters) is Some,
            ({
                let hash = gravity_spec::pinned_hash(self.placer.canon, spec, filters)->Some_0;
                match self.moved_key(
                    key,
                    Some(spec),
                    anchors,
                    fields,
                    axis.satellite(fields),
                    micros,
                    seq,
                ) {
                    Some(k) => k == self.layout.spatial_key_of(
                        Place {
                            lobe_id: layout::lobe_of(key),
                            gravity_hash: hash,
                            satellite: axis.pinned(filters),
                            type_id: self.placer.type_id(fields),
                            micros,
                            seq,
                        },
                    ),
                    None => self.layout.gravity_hash_of(key) == hash && (axis.pinned(
                        filters,
                    ) matches Some(n) ==> layout::satellite_of(key) == n),
                }
            }),
    {
        self.placer.law_record_lies_where_query_looks(
            spec,
            Seq::empty(),
            anchors,
            fields,
            filters,
        );
        if let Some(s) = axis.spec {
            assert(seq![s.field@][0] == s.field@);
        }
        axis.law_record_lies_in_searched_satellite(fields, filters);
    }

    /// Decides whether a changed record moves, and where to. `seq` is a number
    /// that no other record has.
    pub fn move_key<A: Fn(&Value) -> u16>(
        &self,
        key: &Vec<u8>,
        spec: Option<&GravitySpec>,
        anchors: &[String],
        fields: &Fields,
        axis: &SatelliteAxis<A>,
        micros: u64,
        seq: u64,
    ) -> (r: Option<Vec<u8>>)
        requires
            self.sound(),
            axis.sound(),
            key@.len() == layout::SPATIAL_KEY_SIZE,
        ensures
            crate::ghost_ops::opt_bytes(r) == self.moved_key(
                key@,
                placement::opt_spec(spec),
                text::names(anchors@),
                record::fields_view(fields@),
                axis.satellite(record::fields_view(fields@)),
                micros,
                seq,
            ),
    {
        let old_hash: u64 = self.layout.read_gravity_hash(key.as_slice());
        let new_hash: u64 = self.placer.gravity_hash_for(spec, anchors, fields);
        let old_sat: u16 = layout::key_satellite(key.as_slice());
        let new_sat = axis.satellite_of(fields);
        let sat_changed = match new_sat {
            Some(s) => s != old_sat,
            None => false,
        };
        if new_hash != old_hash || sat_changed {
            let type_id: u16 = self.placer.type_id_from_fields(fields);
            let lobe_id: u16 = layout::key_lobe(key.as_slice());
            Some(
                self.layout.make_spatial_key(
                    Place {
                        lobe_id,
                        gravity_hash: new_hash,
                        satellite: new_sat,
                        type_id,
                        micros,
                        seq,
                    },
                ),
            )
        } else {
            None
        }
    }

    /// The writes of a changed record.
    pub fn change_writes(
        &self,
        old_key: &Vec<u8>,
        new_key: Option<&Vec<u8>>,
        lid: u128,
        e: &EncodedRecord,
    ) -> (r: Vec<WriteOp>)
        requires
            self.sound(),
        ensures
            write_ops::ops_view(r@) == change_ops(
                old_key@,
                match new_key {
                    Some(n) => Some(n@),
                    None => None,
                },
                self.layout.lid_bytes_of(lid),
                e@,
            ),
    {
        let mut ops: Vec<WriteOp> = Vec::new();
        match new_key {
            Some(n) => {
                let l = self.layout.make_lid_bytes(lid);
                let ghost lv = l@;
                ops.push(WriteOp::RemoveSpatial(write_ops::copy_bytes(old_key)));
                ops.push(
                    WriteOp::PutSpatial(write_ops::copy_bytes(n), write_ops::copy_bytes(&e.bytes)),
                );
                ops.push(WriteOp::PutIdentity(l, write_ops::copy_bytes(n)));
                ops.push(WriteOp::RemoveVectors(write_ops::copy_bytes(old_key)));
                assert(write_ops::ops_view(ops@) =~= seq![
                    WriteOpV::RemoveSpatial(old_key@),
                    WriteOpV::PutSpatial(n@, e@.bytes),
                    WriteOpV::PutIdentity(lv, n@),
                    WriteOpV::RemoveVectors(old_key@),
                ]);
                write_ops::push_column(&mut ops, n, e);
            },
            None => {
                ops.push(
                    WriteOp::PutSpatial(
                        write_ops::copy_bytes(old_key),
                        write_ops::copy_bytes(&e.bytes),
                    ),
                );
                assert(write_ops::ops_view(ops@) =~= seq![
                    WriteOpV::PutSpatial(old_key@, e@.bytes),
                ]);
                write_ops::push_column(&mut ops, old_key, e);
            },
        }
        write_ops::push_registry(&mut ops, e);
        ops
    }

    /// A changed record that stays where it is lies where its fields place it,
    /// and one that moves goes there.
    pub proof fn law_changed_record_lies_where_placed(
        &self,
        key: Seq<u8>,
        spec: Option<GravitySpecV>,
        anchors: Seq<Seq<char>>,
        fields: Map<Seq<char>, ValueV>,
        new_sat: Option<u16>,
        micros: u64,
        seq: u64,
    )
        requires
            forall|p: Place| #[trigger]
                self.layout.gravity_hash_of(self.layout.spatial_key_of(p)) == p.gravity_hash,
        ensures
            ({
                let at = match self.moved_key(key, spec, anchors, fields, new_sat, micros, seq) {
                    Some(n) => n,
                    None => key,
                };
                self.layout.gravity_hash_of(at) == self.placer.replaced_hash(spec, anchors, fields)
            }),
    {
    }
}

/// After a change the identity leads to the record's new data, whether it moved
/// or not; and where it moved, nothing is left at the old key.
pub proof fn law_change_is_found(
    k: Keyspaces,
    old_key: Seq<u8>,
    new_key: Option<Seq<u8>>,
    lid: Seq<u8>,
    e: EncodedRecordV,
)
    requires
        k.identity.contains_key(lid),
        k.identity[lid] == old_key,
        new_key matches Some(n) ==> n != old_key,
    ensures
        ({
            let after = write_ops::after_writes(k, change_ops(old_key, new_key, lid, e));
            let at = match new_key {
                Some(n) => n,
                None => old_key,
            };
            &&& after.identity == k.identity.insert(lid, at)
            &&& after.spatial == match new_key {
                Some(n) => k.spatial.remove(old_key).insert(n, e.bytes),
                None => k.spatial.insert(old_key, e.bytes),
            }
            &&& e.column matches Some(c) ==> after.vectors.contains_key(at) && after.vectors[at]
                == c
            &&& new_key is Some ==> !after.vectors.contains_key(old_key)
        }),
{
    let at = match new_key {
        Some(n) => n,
        None => old_key,
    };
    let col = write_ops::column_op(at, e);
    let reg = write_ops::registry_op(e);
    let head = match new_key {
        Some(n) => seq![
            WriteOpV::RemoveSpatial(old_key),
            WriteOpV::PutSpatial(n, e.bytes),
            WriteOpV::PutIdentity(lid, n),
            WriteOpV::RemoveVectors(old_key),
        ],
        None => seq![WriteOpV::PutSpatial(old_key, e.bytes)],
    };
    write_ops::law_writes_compose(k, head + col, reg);
    write_ops::law_writes_compose(k, head, col);
    let k1 = write_ops::after_writes(k, head);
    assert(k1.spatial == match new_key {
        Some(n) => k.spatial.remove(old_key).insert(n, e.bytes),
        None => k.spatial.insert(old_key, e.bytes),
    } && k1.identity == match new_key {
        Some(n) => k.identity.insert(lid, n),
        None => k.identity,
    } && k1.vectors == match new_key {
        Some(n) => k.vectors.remove(old_key),
        None => k.vectors,
    }) by {
        reveal_with_fuel(write_ops::after_writes, 5);
        if new_key is Some {
            assert(head.drop_last() =~= seq![head[0], head[1], head[2]]);
            assert(head.drop_last().drop_last() =~= seq![head[0], head[1]]);
            assert(head.drop_last().drop_last().drop_last() =~= seq![head[0]]);
            assert(head.drop_last().drop_last().drop_last().drop_last() =~= Seq::<
                WriteOpV,
            >::empty());
        } else {
            assert(head.drop_last() =~= Seq::<WriteOpV>::empty());
        }
    }
    let k2 = write_ops::after_writes(k1, col);
    assert(k2.spatial == k1.spatial && k2.identity == k1.identity && k2.vectors == match e.column {
        Some(c) => k1.vectors.insert(at, c),
        None => k1.vectors,
    }) by {
        reveal_with_fuel(write_ops::after_writes, 2);
        if e.column is Some {
            assert(col.drop_last() =~= Seq::<WriteOpV>::empty());
        }
    }
    let k3 = write_ops::after_writes(k2, reg);
    assert(k3.spatial == k2.spatial && k3.identity == k2.identity && k3.vectors == k2.vectors) by {
        reveal_with_fuel(write_ops::after_writes, 2);
        if e.registry is Some {
            assert(reg.drop_last() =~= Seq::<WriteOpV>::empty());
        }
    }
    if new_key is None {
        assert(k.identity.insert(lid, old_key) =~= k.identity);
    }
}

/// A SET stores of a field what a PUT of the same literal stores; of two for one field
/// the last.
pub proof fn law_set_stores_as_put(
    fields: Map<Seq<char>, ValueV>,
    s: Seq<(String, Literal)>,
    i: int,
    lobe: Seq<char>,
)
    requires
        0 <= i < s.len(),
        forall|j: int| i < j < s.len() ==> (#[trigger] s[j]).0@ != s[i].0@,
    ensures
        ({
            let name = s[i].0@;
            let put = placement::PutFieldV { name, value: s[i].1@, gravity: false };
            let stored = placement::typed(lobe, placement::written_fields(seq![put]));
            &&& assigned(fields, s).contains_key(name)
            &&& assigned(fields, s)[name] == stored[name]
        }),
{
    let name = s[i].0@;
    let put = placement::PutFieldV { name, value: s[i].1@, gravity: false };
    lemma_assigned(fields, s, i);
    law_set_leaves_other_fields(fields, s, name);
    assert(s[i].0@ == name);
    assert(seq![put].drop_last() =~= Seq::<placement::PutFieldV>::empty());
    assert(seq![put].last() == put);
    let w = placement::written_fields(seq![put]);
    assert(w.contains_key(name) && w[name] == filter::literal_value(put.value));
}

/// A SET changes no field but those that it names, and those it names are there after it.
pub proof fn law_set_leaves_other_fields(
    fields: Map<Seq<char>, ValueV>,
    s: Seq<(String, Literal)>,
    name: Seq<char>,
)
    ensures
        ({
            let after = assigned(fields, s);
            let named = exists|i: int| 0 <= i < s.len() && (#[trigger] s[i]).0@ == name;
            &&& after.contains_key(name) <==> named || fields.contains_key(name)
            &&& !named && fields.contains_key(name) ==> after[name] == fields[name]
        }),
    decreases s.len(),
{
    if s.len() > 0 {
        let d = s.drop_last();
        law_set_leaves_other_fields(fields, d, name);
        if exists|i: int| 0 <= i < d.len() && (#[trigger] d[i]).0@ == name {
            let i = choose|i: int| 0 <= i < d.len() && (#[trigger] d[i]).0@ == name;
            assert(s[i].0@ == name);
        }
        if s.last().0@ == name {
            assert(s[s.len() - 1].0@ == name);
        }
        if exists|i: int| 0 <= i < s.len() && (#[trigger] s[i]).0@ == name {
            let i = choose|i: int| 0 <= i < s.len() && (#[trigger] s[i]).0@ == name;
            if i < d.len() {
                assert(d[i].0@ == name);
            }
        }
    }
}

proof fn lemma_assigned(fields: Map<Seq<char>, ValueV>, s: Seq<(String, Literal)>, i: int)
    requires
        0 <= i < s.len(),
        forall|j: int| i < j < s.len() ==> (#[trigger] s[j]).0@ != s[i].0@,
    ensures
        assigned(fields, s)[s[i].0@] == filter::literal_value(s[i].1@),
    decreases s.len(),
{
    let d = s.drop_last();
    if i < d.len() {
        assert forall|j: int| i < j < d.len() implies (#[trigger] d[j]).0@ != d[i].0@ by {
            assert(d[j] == s[j]);
        }
        assert(d[i] == s[i]);
        assert(s[s.len() - 1].0@ != s[i].0@);
        lemma_assigned(fields, d, i);
    }
}

/// A changed record stays at its key exactly where its hash is the same and its satellite
/// is not another one.
pub proof fn law_record_moves_when_its_place_changes(
    old_hash: u64,
    new_hash: u64,
    old_sat: u16,
    new_sat: Option<u16>,
)
    ensures
        moves(old_hash, new_hash, old_sat, new_sat) <==> old_hash != new_hash || (new_sat is Some
            && new_sat != Some(old_sat)),
{
}

/// A SET is refused exactly where one of its fields is an anchor of the lobe of one of the
/// records.
pub proof fn law_anchors_are_not_set(
    records: Seq<Record>,
    s: Seq<(String, Literal)>,
    anchors: Map<Seq<char>, Vec<String>>,
)
    ensures
        (exists|i: int, j: int| #[trigger] first_anchor_change(records, s, anchors, i, j))
            <==> exists|i: int, j: int|
            #![trigger records[i], s[j]]
            0 <= i < records.len() && 0 <= j < s.len() && anchors.contains_key(
                records[i].lobe_name@,
            ) && text::names(anchors[records[i].lobe_name@]@).contains(s[j].0@),
{
    if exists|i: int, j: int| #[trigger] first_anchor_change(records, s, anchors, i, j) {
        let (i, j) = choose|i: int, j: int| #[trigger]
            first_anchor_change(records, s, anchors, i, j);
        assert(changes_anchor(records, s, anchors, i, j));
        assert(anchors.contains_key(records[i].lobe_name@) && text::names(
            anchors[records[i].lobe_name@]@,
        ).contains(s[j].0@));
    }
    if exists|i: int, j: int|
        #![trigger records[i], s[j]]
        0 <= i < records.len() && 0 <= j < s.len() && anchors.contains_key(records[i].lobe_name@)
            && text::names(anchors[records[i].lobe_name@]@).contains(s[j].0@) {
        let (i, j) = choose|i: int, j: int|
            #![trigger records[i], s[j]]
            0 <= i < records.len() && 0 <= j < s.len() && anchors.contains_key(
                records[i].lobe_name@,
            ) && text::names(anchors[records[i].lobe_name@]@).contains(s[j].0@);
        assert(changes_anchor(records, s, anchors, i, j));
        lemma_first_anchor_change(records, s, anchors, i, j);
    }
}

proof fn lemma_first_anchor_change(
    records: Seq<Record>,
    s: Seq<(String, Literal)>,
    anchors: Map<Seq<char>, Vec<String>>,
    i: int,
    j: int,
)
    requires
        changes_anchor(records, s, anchors, i, j),
    ensures
        exists|a: int, b: int| #[trigger] first_anchor_change(records, s, anchors, a, b),
    decreases i, j,
{
    if forall|a: int, b: int| #[trigger]
        changes_anchor(records, s, anchors, a, b) ==> i < a || (i == a && j <= b) {
        assert(first_anchor_change(records, s, anchors, i, j));
    } else {
        let (a, b) = choose|a: int, b: int| #[trigger]
            changes_anchor(records, s, anchors, a, b) && !(i < a || (i == a && j <= b));
        lemma_first_anchor_change(records, s, anchors, a, b);
    }
}

} // verus!
