//! Removing records.

use crate::error;
use crate::error::XyzError;
use crate::layout;
use crate::layout::Place;
use crate::put;
use crate::put::{DraftV, Writer};
use crate::record;
use crate::record::{Fields, Record};
use crate::text;
use crate::value::{Value, ValueV};
use crate::write_ops;
use crate::write_ops::{EncodedRecordV, Keyspaces, WriteOp, WriteOpV};
use vstd::prelude::*;

verus! {

/// The removals of anchors.
pub open spec fn remove_keys(keys: Seq<Seq<u8>>) -> Seq<WriteOpV> {
    keys.map_values(|k: Seq<u8>| WriteOpV::RemoveDictionary(k))
}

/// The removals of a record: what leads to it before its data.
pub open spec fn removal(keys: Seq<Seq<u8>>, lid: Seq<u8>, key: Seq<u8>) -> Seq<WriteOpV> {
    remove_keys(keys) + seq![
        WriteOpV::RemoveIdentity(lid),
        WriteOpV::RemoveVectors(key),
        WriteOpV::RemoveSpatial(key),
    ]
}

/// The answer to a removal of this many records, the first of which is named.
pub open spec fn deleted_text(n: int) -> Seq<char> {
    if n == 0 {
        "0 records deleted"@
    } else {
        text::decimal(n) + " record(s) deleted"@
    }
}

/// The identity of the first record.
pub open spec fn first_lid(records: Seq<Record>) -> Option<u128> {
    if records.len() == 0 {
        None
    } else {
        Some(records[0].lid)
    }
}

/// What is told of a removal: the first record's identity and how many there
/// were.
pub fn delete_summary(records: &Vec<Record>) -> (r: (Option<u128>, String))
    ensures
        r.0 == first_lid(records@),
        r.1@ == deleted_text(records@.len() as int),
{
    if records.len() == 0 {
        return (None, "0 records deleted".to_owned());
    }
    let n = text::decimal_text(records.len() as i128);
    (Some(records[0].lid), text::join2(n.as_str(), " record(s) deleted"))
}

/// The failure of a statement that neither names a target nor follows another
/// step.
pub fn need_target<T>(has_target: bool, problem: &str, otherwise: T) -> (r: Result<T, XyzError>)
    ensures
        if has_target {
            r == Ok::<T, XyzError>(otherwise)
        } else {
            error::is_invalid(r, problem@)
        },
{
    if has_target {
        Ok(otherwise)
    } else {
        error::invalid(problem)
    }
}

/// The spatial key of a record to be changed; `found` is what its identity leads
/// to, nothing where the record is gone already.
pub fn live_key(found: Option<&Vec<u8>>) -> (r: Result<Option<Vec<u8>>, XyzError>)
    ensures
        match found {
            None => r == Ok::<Option<Vec<u8>>, XyzError>(None),
            Some(k) => match layout::full_key(k@) {
                Some(f) => r matches Ok(Some(v)) && v@ == f,
                None => r matches Err(XyzError::Internal(m)) && m@ == "bad spatial key"@,
            },
        },
{
    match found {
        None => Ok(None),
        Some(k) => match layout::stored_key(k.as_slice(), "bad spatial key") {
            Ok(v) => Ok(Some(v)),
            Err(e) => Err(e),
        },
    }
}

impl<
    H: Fn(&str) -> u64,
    R: Fn(&Value) -> String,
    C: Fn(&Fields) -> String,
    D: Fn(u16, &str, &str) -> Vec<u8>,
    S: Fn(Place) -> Vec<u8>,
    G: Fn(&[u8]) -> u64,
    B: Fn(u128) -> Vec<u8>,
    F: Fn(&[u8]) -> u128,
    T: Fn(u128) -> String,
> Writer<H, R, C, D, S, G, B, F, T> {
    /// The keys of the anchors that a record has, in the order in which they are
    /// declared.
    pub open spec fn removal_keys(
        &self,
        lobe_id: u16,
        anchors: Seq<Seq<char>>,
        fields: Map<Seq<char>, ValueV>,
    ) -> Seq<Seq<u8>>
        decreases anchors.len(),
    {
        if anchors.len() == 0 {
            Seq::empty()
        } else {
            let before = self.removal_keys(lobe_id, anchors.drop_last(), fields);
            if fields.contains_key(anchors.last()) {
                before.push(
                    self.layout.dictionary_key_of(
                        lobe_id,
                        anchors.last(),
                        self.placer.canon.anchor_text(fields[anchors.last()]),
                    ),
                )
            } else {
                before
            }
        }
    }

    /// The keys whose entries a record's removal removes: none where its lobe is
    /// not known.
    pub open spec fn lobe_removal_keys(
        &self,
        lobe_id: Option<u16>,
        anchors: Seq<Seq<char>>,
        fields: Map<Seq<char>, ValueV>,
    ) -> Seq<Seq<u8>> {
        match lobe_id {
            Some(l) => self.removal_keys(l, anchors, fields),
            None => Seq::empty(),
        }
    }

    /// The removals of a record, index before data: the entries of its anchors,
    /// its identity and its vector before the record itself, so that at no time
    /// something leads to a record that is gone.
    pub fn build_delete_ops(
        &self,
        lobe_id: Option<u16>,
        anchors: &[String],
        rec: &Record,
        key: &Vec<u8>,
    ) -> (r: Vec<WriteOp>)
        requires
            self.sound(),
        ensures
            write_ops::ops_view(r@) == removal(
                self.lobe_removal_keys(lobe_id, text::names(anchors@), rec@.fields),
                self.layout.lid_bytes_of(rec@.lid),
                key@,
            ),
    {
        let mut ops: Vec<WriteOp> = Vec::new();
        let ghost fv = rec@.fields;
        let ghost av = text::names(anchors@);
        assert(write_ops::ops_view(ops@) =~= remove_keys(Seq::empty()));
        if let Some(l) = lobe_id {
            let mut i: usize = 0;
            assert(av.take(0) =~= Seq::<Seq<char>>::empty());
            while i < anchors.len()
                invariant
                    i <= anchors@.len(),
                    self.sound(),
                    av == text::names(anchors@),
                    fv == record::fields_view(rec.fields@),
                    write_ops::ops_view(ops@) == remove_keys(
                        self.removal_keys(l, av.take(i as int), fv),
                    ),
                decreases anchors@.len() - i,
            {
                proof {
                    assert(av.take(i + 1).drop_last() =~= av.take(i as int));
                    assert(av.take(i + 1).last() == anchors@[i as int]@);
                }
                if let Some(v) = rec.fields.get(anchors[i].as_str()) {
                    assert(fv[anchors@[i as int]@] == v@);
                    let t = self.placer.canon.value_to_anchor_string(v);
                    let k = self.layout.make_dictionary_key(l, anchors[i].as_str(), t.as_str());
                    let ghost kv = k@;
                    let ghost before = self.removal_keys(l, av.take(i as int), fv);
                    write_ops::push_op(&mut ops, WriteOp::RemoveDictionary(k));
                    assert(remove_keys(before).push(WriteOpV::RemoveDictionary(kv))
                        =~= remove_keys(before.push(kv)));
                }
                i = i + 1;
            }
            assert(av.take(i as int) =~= av);
        }
        let ghost before = write_ops::ops_view(ops@);
        let lid = self.layout.make_lid_bytes(rec.lid);
        let ghost lv = lid@;
        write_ops::push_op(&mut ops, WriteOp::RemoveIdentity(lid));
        write_ops::push_op(&mut ops, WriteOp::RemoveVectors(write_ops::copy_bytes(key)));
        write_ops::push_op(&mut ops, WriteOp::RemoveSpatial(write_ops::copy_bytes(key)));
        assert(write_ops::ops_view(ops@) =~= before + seq![
            WriteOpV::RemoveIdentity(lv),
            WriteOpV::RemoveVectors(key@),
            WriteOpV::RemoveSpatial(key@),
        ]);
        ops
    }

    /// Removing a record removes exactly the anchors' entries that writing it made.
    pub proof fn law_removal_keys_are_written_keys(
        &self,
        lobe_id: u16,
        anchors: Seq<Seq<char>>,
        fields: Map<Seq<char>, ValueV>,
    )
        ensures
            self.removal_keys(lobe_id, anchors, fields) == put::keys_of(
                self.record_anchors(lobe_id, anchors, fields),
            ),
        decreases anchors.len(),
    {
        if anchors.len() == 0 {
            assert(put::keys_of(self.record_anchors(lobe_id, anchors, fields)) =~= Seq::<
                Seq<u8>,
            >::empty());
        } else {
            let d = anchors.drop_last();
            self.law_removal_keys_are_written_keys(lobe_id, d, fields);
            assert(anchors[anchors.len() - 1] == anchors.last());
            assert(self.removal_keys(lobe_id, anchors, fields) =~= put::keys_of(
                self.record_anchors(lobe_id, anchors, fields),
            ));
        }
    }
}

proof fn lemma_keys_removed(k: Keyspaces, keys: Seq<Seq<u8>>, n: int)
    requires
        0 <= n <= keys.len(),
    ensures
        ({
            let after = write_ops::after_writes(k, remove_keys(keys).take(n));
            &&& after.spatial == k.spatial
            &&& after.identity == k.identity
            &&& after.vectors == k.vectors
            &&& after.dictionary == k.dictionary.remove_keys(keys.take(n).to_set())
        }),
    decreases n,
{
    let ops = remove_keys(keys).take(n);
    let after = write_ops::after_writes(k, ops);
    if n == 0 {
        assert(keys.take(0) =~= Seq::<Seq<u8>>::empty());
        assert(after.dictionary =~= k.dictionary.remove_keys(keys.take(n).to_set()));
    } else {
        lemma_keys_removed(k, keys, n - 1);
        assert(ops.drop_last() =~= remove_keys(keys).take(n - 1));
        assert(ops.last() == WriteOpV::RemoveDictionary(keys[n - 1]));
        let less = keys.take(n - 1);
        let more = keys.take(n);
        let a = less.to_set();
        let b = more.to_set();
        assert(more =~= less.push(keys[n - 1]));
        assert(b =~= a.insert(keys[n - 1])) by {
            assert forall|x: Seq<u8>| #[trigger] b.contains(x) == a.insert(keys[n - 1]).contains(
                x,
            ) by {
                if a.contains(x) {
                    assert(less.contains(x));
                    let j = choose|j: int| 0 <= j < less.len() && less[j] == x;
                    assert(more[j] == x);
                }
                if x == keys[n - 1] {
                    assert(more[n - 1] == x);
                }
                if b.contains(x) {
                    assert(more.contains(x));
                    let j = choose|j: int| 0 <= j < more.len() && more[j] == x;
                    if j < n - 1 {
                        assert(less[j] == x);
                    }
                }
            }
        }
        assert(after.dictionary =~= k.dictionary.remove_keys(b));
    }
}

/// After a removal nothing of the record is left: neither its data nor its
/// vector, its identity or the entries of its anchors, and nothing else changed.
pub proof fn law_removal_leaves_nothing(
    k: Keyspaces,
    keys: Seq<Seq<u8>>,
    lid: Seq<u8>,
    key: Seq<u8>,
)
    ensures
        write_ops::after_writes(k, removal(keys, lid, key)) == (Keyspaces {
            spatial: k.spatial.remove(key),
            identity: k.identity.remove(lid),
            vectors: k.vectors.remove(key),
            dictionary: k.dictionary.remove_keys(keys.to_set()),
        }),
{
    let tail = seq![
        WriteOpV::RemoveIdentity(lid),
        WriteOpV::RemoveVectors(key),
        WriteOpV::RemoveSpatial(key),
    ];
    write_ops::law_writes_compose(k, remove_keys(keys), tail);
    lemma_keys_removed(k, keys, keys.len() as int);
    assert(remove_keys(keys).take(keys.len() as int) =~= remove_keys(keys));
    assert(keys.take(keys.len() as int) =~= keys);
    reveal_with_fuel(write_ops::after_writes, 4);
    assert(tail.drop_last() =~= seq![tail[0], tail[1]]);
    assert(tail.drop_last().drop_last() =~= seq![tail[0]]);
    assert(tail.drop_last().drop_last().drop_last() =~= Seq::<WriteOpV>::empty());
}

/// Index before data: while a removal is under way, the record's data is there
/// as long as anything is left to remove.
pub proof fn law_data_is_removed_last(
    k: Keyspaces,
    keys: Seq<Seq<u8>>,
    lid: Seq<u8>,
    key: Seq<u8>,
    n: int,
)
    requires
        0 <= n < removal(keys, lid, key).len(),
    ensures
        write_ops::after_writes(k, removal(keys, lid, key).take(n)).spatial == k.spatial,
    decreases n,
{
    let ops = removal(keys, lid, key);
    if n > 0 {
        law_data_is_removed_last(k, keys, lid, key, n - 1);
        assert(ops.take(n).drop_last() =~= ops.take(n - 1));
        assert(ops.take(n).last() == ops[n - 1]);
        if n - 1 < keys.len() {
            assert(ops[n - 1] == remove_keys(keys)[n - 1]);
        }
    }
}

/// Data before index: while a new record is being written, what leads to it is
/// there only when its data is.
pub proof fn law_data_is_written_first(
    k: Keyspaces,
    d: DraftV,
    lid: Seq<u8>,
    e: EncodedRecordV,
    n: int,
)
    requires
        1 <= n <= put::insert_ops(d, lid, e).len(),
    ensures
        write_ops::after_writes(k, put::insert_ops(d, lid, e).take(n)).spatial
            == k.spatial.insert(d.spatial_key, e.bytes),
        write_ops::after_writes(k, put::insert_ops(d, lid, e).take(0)) == k,
    decreases n,
{
    let ops = put::insert_ops(d, lid, e);
    let head = seq![
        WriteOpV::PutSpatial(d.spatial_key, e.bytes),
        WriteOpV::PutIdentity(lid, d.spatial_key),
    ];
    let col = write_ops::column_op(d.spatial_key, e);
    let reg = write_ops::registry_op(e);
    let tail = put::anchor_ops(d.anchors, lid);
    assert(ops.take(0) =~= Seq::<WriteOpV>::empty());
    assert(write_ops::after_writes(k, ops.take(0)) == k);
    assert(ops.take(n).drop_last() =~= ops.take(n - 1));
    assert(ops.take(n).last() == ops[n - 1]);
    assert(ops[0] == head[0]);
    if n > 1 {
        law_data_is_written_first(k, d, lid, e, n - 1);
        let m = n - 1;
        assert(ops[m] !is PutSpatial && ops[m] !is RemoveSpatial) by {
            let c = head.len() + col.len();
            if m < 2 {
                assert(ops[m] == head[m]);
            } else if m < c {
                assert(ops[m] == col[m - 2]);
            } else if m < c + reg.len() {
                assert(ops[m] == reg[m - c]);
            } else {
                assert(ops[m] == tail[m - c - reg.len()]);
            }
        }
    }
}

/// Writing a new record and removing it leaves the keyspaces as they were but for
/// the registry, wherever its keys were free.
pub proof fn law_removal_undoes_insert(k: Keyspaces, d: DraftV, lid: Seq<u8>, e: EncodedRecordV)
    requires
        !k.spatial.contains_key(d.spatial_key),
        !k.vectors.contains_key(d.spatial_key),
        !k.identity.contains_key(lid),
        forall|i: int|
            0 <= i < d.anchors.len() ==> !k.dictionary.contains_key(
                (#[trigger] d.anchors[i]).key,
            ),
    ensures
        ({
            let after = write_ops::after_writes(
                write_ops::after_writes(k, put::insert_ops(d, lid, e)),
                removal(put::keys_of(d.anchors), lid, d.spatial_key),
            );
            &&& after.spatial == k.spatial
            &&& after.identity == k.identity
            &&& after.vectors == k.vectors
            &&& forall|x: Seq<u8>| #[trigger]
                after.dictionary.contains_key(x) ==> (k.dictionary.contains_key(x)
                    && after.dictionary[x] == k.dictionary[x]) || (e.registry matches Some(p)
                    && p.0 == x)
        }),
{
    let mid = write_ops::after_writes(k, put::insert_ops(d, lid, e));
    let keys = put::keys_of(d.anchors);
    put::law_insert_is_found(k, d, lid, e);
    law_removal_leaves_nothing(mid, keys, lid, d.spatial_key);
    assert(mid.spatial.remove(d.spatial_key) =~= k.spatial);
    assert(mid.identity.remove(lid) =~= k.identity);
    assert(mid.vectors.remove(d.spatial_key) =~= k.vectors);
    let after = mid.dictionary.remove_keys(keys.to_set());
    assert forall|x: Seq<u8>| #[trigger] after.contains_key(x) implies (k.dictionary.contains_key(x)
        && after[x] == k.dictionary[x]) || (e.registry matches Some(p) && p.0 == x) by {
        assert(mid.dictionary.contains_key(x));
        assert(!keys.contains(x));
    }
}

impl<
    H: Fn(&str) -> u64,
    R: Fn(&Value) -> String,
    C: Fn(&Fields) -> String,
    D: Fn(u16, &str, &str) -> Vec<u8>,
    S: Fn(Place) -> Vec<u8>,
    G: Fn(&[u8]) -> u64,
    B: Fn(u128) -> Vec<u8>,
    F: Fn(&[u8]) -> u128,
    T: Fn(u128) -> String,
> Writer<H, R, C, D, S, G, B, F, T> {
    /// A record of a lobe that is not known has no anchors to remove.
    pub proof fn law_unknown_lobe_has_no_anchors(
        &self,
        lobe_id: u16,
        anchors: Seq<Seq<char>>,
        fields: Map<Seq<char>, ValueV>,
    )
        ensures
            self.lobe_removal_keys(None, anchors, fields).len() == 0,
            self.lobe_removal_keys(Some(lobe_id), anchors, fields) == put::keys_of(
                self.record_anchors(lobe_id, anchors, fields),
            ),
        decreases anchors.len(),
    {
        if anchors.len() > 0 {
            self.law_unknown_lobe_has_no_anchors(lobe_id, anchors.drop_last(), fields);
        }
        assert(self.removal_keys(lobe_id, anchors, fields) =~= put::keys_of(
            self.record_anchors(lobe_id, anchors, fields),
        ));
    }
}

/// A removal names the first of the records that were removed.
pub proof fn law_removal_names_first(records: Seq<Record>)
    ensures
        first_lid(records) is Some <==> records.len() > 0,
        records.len() > 0 ==> first_lid(records) == Some(records[0].lid),
{
}

} // verus!
