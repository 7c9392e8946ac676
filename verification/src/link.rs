//! Links between records.

use crate::error::XyzError;
use crate::layout;
use crate::layout::Place;
use crate::put::Writer;
use crate::record;
use crate::record::{Fields, Record, RecordV};
use crate::text;
use crate::value::{Value, ValueV};
use crate::write_ops;
use crate::write_ops::{EncodedRecord, EncodedRecordV, WriteOp, WriteOpV};
use vstd::prelude::*;

verus! {

/// The field that holds a link.
pub open spec fn link_field(relation: Seq<char>) -> Seq<char> {
    "_link_"@ + relation
}

/// The identities of both ends of a link, or which end was not found.
pub fn link_ends(source: Option<u128>, target: Option<u128>) -> (r: Result<(u128, u128), XyzError>)
    ensures
        match (source, target) {
            (None, _) => r matches Err(XyzError::RecordNotFound(m)) && m@
                == "LINK source not found"@,
            (Some(_), None) => r matches Err(XyzError::RecordNotFound(m)) && m@
                == "LINK target not found"@,
            (Some(s), Some(t)) => r == Ok::<(u128, u128), XyzError>((s, t)),
        },
{
    match source {
        None => Err(XyzError::RecordNotFound("LINK source not found".to_owned())),
        Some(s) => match target {
            None => Err(XyzError::RecordNotFound("LINK target not found".to_owned())),
            Some(t) => Ok((s, t)),
        },
    }
}

/// The writes of a linked record.
pub open spec fn link_ops(key: Seq<u8>, e: EncodedRecordV) -> Seq<WriteOpV> {
    seq![WriteOpV::PutSpatial(key, e.bytes)] + write_ops::registry_op(e)
}

/// The writes of a linked record.
pub fn link_writes(key: &Vec<u8>, e: &EncodedRecord) -> (r: Vec<WriteOp>)
    ensures
        write_ops::ops_view(r@) == link_ops(key@, e@),
{
    let mut ops: Vec<WriteOp> = Vec::new();
    ops.push(WriteOp::PutSpatial(write_ops::copy_bytes(key), write_ops::copy_bytes(&e.bytes)));
    assert(write_ops::ops_view(ops@) =~= seq![WriteOpV::PutSpatial(key@, e@.bytes)]);
    write_ops::push_registry(&mut ops, e);
    ops
}

impl<
    H: Fn(&str) -> u64,
    R: Fn(&Value) -> String,
    C: Fn(&Fields) -> String,
    D: Fn(u16, &str, &str) -> Vec<u8>,
    S: Fn(Place) -> Vec<u8>,
    G: Fn(&[u8]) -> u64,
    B: Fn(u128) -> Vec<u8>,
    F: Fn(&[u8]) -> u128,
    T: Fn(u128) -> String,
> Writer<H, R, C, D, S, G, B, F, T> {
    /// The spatial key of a link's source; `found` is what its identity leads to.
    pub fn source_key(&self, source: u128, found: Option<&Vec<u8>>) -> (r: Result<
        Vec<u8>,
        XyzError,
    >)
        requires
            self.sound(),
        ensures
            match found {
                None => self.is_missing(r, source),
                Some(k) => match layout::full_key(k@) {
                    Some(f) => r matches Ok(v) && v@ == f,
                    None => r matches Err(XyzError::Internal(m)) && m@ == "bad spatial key"@,
                },
            },
    {
        match found {
            None => Err(XyzError::RecordNotFound(self.layout.show_lid(source))),
            Some(k) => layout::stored_key(k.as_slice(), "bad spatial key"),
        }
    }

    /// The record with a link to the target, changed at `now` where a time is
    /// given.
    pub open spec fn linked(
        &self,
        rec: RecordV,
        relation: Seq<char>,
        target: u128,
        now: Option<i64>,
    ) -> RecordV {
        RecordV {
            fields: rec.fields.insert(
                link_field(relation),
                ValueV::Text(self.layout.lid_text_of(target)),
            ),
            updated_at: match now {
                Some(t) => t,
                None => rec.updated_at,
            },
            ..rec
        }
    }

    /// Adds a link to a record. A statement of its own gives the time; a link
    /// made with a new record leaves its time as it is.
    pub fn create_link_record(
        &self,
        rec: &Record,
        relation: &str,
        target: u128,
        now: Option<i64>,
    ) -> (r: Record)
        requires
            self.sound(),
        ensures
            r@ == self.linked(rec@, relation@, target, now),
    {
        let mut r = rec.clone_record();
        let ghost before = r.fields@;
        let name = text::join2("_link_", relation);
        let v = Value::Text(self.layout.show_lid(target));
        let ghost vv = v@;
        r.fields.insert(name, v);
        assert(record::fields_view(r.fields@) =~= record::fields_view(before).insert(
            link_field(relation@),
            vv,
        ));
        if let Some(t) = now {
            r.updated_at = t;
        }
        r
    }

    /// What is told of a link.
    pub fn link_message(&self, source: u128, target: u128, relation: &str) -> (r: String)
        requires
            self.sound(),
        ensures
            r@ == "LINK created: "@ + self.layout.lid_text_of(source) + " -> "@
                + self.layout.lid_text_of(target) + " as '"@ + relation@ + "'"@,
    {
        let s = self.layout.show_lid(source);
        let t = self.layout.show_lid(target);
        let mut m = text::join3("LINK created: ", s.as_str(), " -> ");
        m.append(t.as_str());
        m.append(" as '");
        m.append(relation);
        m.append("'");
        m
    }
}

impl<
    H: Fn(&str) -> u64,
    R: Fn(&Value) -> String,
    C: Fn(&Fields) -> String,
    D: Fn(u16, &str, &str) -> Vec<u8>,
    S: Fn(Place) -> Vec<u8>,
    G: Fn(&[u8]) -> u64,
    B: Fn(u128) -> Vec<u8>,
    F: Fn(&[u8]) -> u128,
    T: Fn(u128) -> String,
> Writer<H, R, C, D, S, G, B, F, T> {
    /// A link is stored under its relation as the text of the identity that it leads to,
    /// and no other field of the record changes. Links of different relations do not
    /// overwrite each other.
    pub proof fn law_link_leads_to_target(
        &self,
        rec: RecordV,
        relation: Seq<char>,
        other: Seq<char>,
        target: u128,
        t: String,
        now: Option<i64>,
    )
        requires
            self.sound(),
            self.layout.lid_text.ensures((target,), t),
        ensures
            ({
                let r = self.linked(rec, relation, target, now);
                &&& r.fields.contains_key(link_field(relation))
                &&& r.fields[link_field(relation)] == ValueV::Text(t@)
                &&& forall|f: Seq<char>|
                    f != link_field(relation) ==> (#[trigger] r.fields.contains_key(f)
                        <==> rec.fields.contains_key(f)) && (rec.fields.contains_key(f)
                        ==> r.fields[f] == rec.fields[f])
                &&& r.lid == rec.lid && r.lobe_name == rec.lobe_name && r.created_at
                    == rec.created_at
                &&& now matches Some(n) ==> r.updated_at == n
                &&& now is None ==> r.updated_at == rec.updated_at
            }),
            relation != other ==> link_field(relation) != link_field(other),
    {
        assert(self.layout.is_lid_text(target, t@));
        if link_field(relation) == link_field(other) {
            let n = "_link_"@.len() as int;
            assert(link_field(relation).skip(n) =~= relation);
            assert(link_field(other).skip(n) =~= other);
        }
    }
}

/// After a linked record is written its key leads to its new bytes, and no other record
/// and no identity is touched.
pub proof fn law_linked_record_is_found(
    k: write_ops::Keyspaces,
    key: Seq<u8>,
    e: EncodedRecordV,
    other: Seq<u8>,
)
    ensures
        ({
            let a = write_ops::after_writes(k, link_ops(key, e));
            &&& a.spatial.contains_key(key) && a.spatial[key] == e.bytes
            &&& other != key ==> (a.spatial.contains_key(other) <==> k.spatial.contains_key(other))
                && a.spatial[other] == k.spatial[other]
            &&& a.identity == k.identity && a.vectors == k.vectors
        }),
{
    let op = WriteOpV::PutSpatial(key, e.bytes);
    write_ops::law_writes_compose(k, seq![op], write_ops::registry_op(e));
    assert(seq![op].drop_last() =~= Seq::<WriteOpV>::empty());
    assert(seq![op].last() == op);
    assert(write_ops::after_writes(k, Seq::<WriteOpV>::empty()) == k);
    let b = write_ops::after_writes(k, seq![op]);
    assert(b == write_ops::after_write(k, op));
    let plain = EncodedRecordV { column: None, ..e };
    write_ops::law_extras_are_written(b, key, plain);
    assert(write_ops::column_op(key, plain) + write_ops::registry_op(plain)
        =~= write_ops::registry_op(e));
}

} // verus!
