//! What an operation writes, and what the keyspaces hold then.

use crate::ghost_ops;
use vstd::prelude::*;

verus! {

/// One write of a batch.
#[derive(Debug, PartialEq, Eq)]
pub enum WriteOp {
    PutSpatial(Vec<u8>, Vec<u8>),
    PutIdentity(Vec<u8>, Vec<u8>),
    PutVectors(Vec<u8>, Vec<u8>),
    PutDictionary(Vec<u8>, Vec<u8>),
    RemoveSpatial(Vec<u8>),
    RemoveIdentity(Vec<u8>),
    RemoveVectors(Vec<u8>),
    RemoveDictionary(Vec<u8>),
}

/// What a [`WriteOp`] says.
pub enum WriteOpV {
    PutSpatial(Seq<u8>, Seq<u8>),
    PutIdentity(Seq<u8>, Seq<u8>),
    PutVectors(Seq<u8>, Seq<u8>),
    PutDictionary(Seq<u8>, Seq<u8>),
    RemoveSpatial(Seq<u8>),
    RemoveIdentity(Seq<u8>),
    RemoveVectors(Seq<u8>),
    RemoveDictionary(Seq<u8>),
}

impl View for WriteOp {
    type V = WriteOpV;

    open spec fn view(&self) -> WriteOpV {
        match self {
            WriteOp::PutSpatial(k, v) => WriteOpV::PutSpatial(k@, v@),
            WriteOp::PutIdentity(k, v) => WriteOpV::PutIdentity(k@, v@),
            WriteOp::PutVectors(k, v) => WriteOpV::PutVectors(k@, v@),
            WriteOp::PutDictionary(k, v) => WriteOpV::PutDictionary(k@, v@),
            WriteOp::RemoveSpatial(k) => WriteOpV::RemoveSpatial(k@),
            WriteOp::RemoveIdentity(k) => WriteOpV::RemoveIdentity(k@),
            WriteOp::RemoveVectors(k) => WriteOpV::RemoveVectors(k@),
            WriteOp::RemoveDictionary(k) => WriteOpV::RemoveDictionary(k@),
        }
    }
}

/// What writes say.
pub open spec fn ops_view(s: Seq<WriteOp>) -> Seq<WriteOpV> {
    s.map_values(|o: WriteOp| o@)
}

/// What the keyspaces hold.
#[verifier::ext_equal]
pub struct Keyspaces {
    /// Records by spatial key.
    pub spatial: Map<Seq<u8>, Seq<u8>>,
    /// Spatial keys by identity.
    pub identity: Map<Seq<u8>, Seq<u8>>,
    /// Vectors by spatial key.
    pub vectors: Map<Seq<u8>, Seq<u8>>,
    /// Identities by anchor key, and what else is looked up by name.
    pub dictionary: Map<Seq<u8>, Seq<u8>>,
}

/// What the keyspaces hold after one write.
pub open spec fn after_write(k: Keyspaces, op: WriteOpV) -> Keyspaces {
    match op {
        WriteOpV::PutSpatial(a, b) => Keyspaces { spatial: k.spatial.insert(a, b), ..k },
        WriteOpV::PutIdentity(a, b) => Keyspaces { identity: k.identity.insert(a, b), ..k },
        WriteOpV::PutVectors(a, b) => Keyspaces { vectors: k.vectors.insert(a, b), ..k },
        WriteOpV::PutDictionary(a, b) => Keyspaces { dictionary: k.dictionary.insert(a, b), ..k },
        WriteOpV::RemoveSpatial(a) => Keyspaces { spatial: k.spatial.remove(a), ..k },
        WriteOpV::RemoveIdentity(a) => Keyspaces { identity: k.identity.remove(a), ..k },
        WriteOpV::RemoveVectors(a) => Keyspaces { vectors: k.vectors.remove(a), ..k },
        WriteOpV::RemoveDictionary(a) => Keyspaces { dictionary: k.dictionary.remove(a), ..k },
    }
}

/// What the keyspaces hold after writes in order.
pub open spec fn after_writes(k: Keyspaces, ops: Seq<WriteOpV>) -> Keyspaces
    decreases ops.len(),
{
    if ops.len() == 0 {
        k
    } else {
        after_write(after_writes(k, ops.drop_last()), ops.last())
    }
}

/// Writes made one after the other are the writes together.
pub proof fn law_writes_compose(k: Keyspaces, a: Seq<WriteOpV>, b: Seq<WriteOpV>)
    ensures
        after_writes(k, a + b) == after_writes(after_writes(k, a), b),
    decreases b.len(),
{
    if b.len() == 0 {
        assert(a + b =~= a);
    } else {
        assert((a + b).drop_last() =~= a + b.drop_last());
        law_writes_compose(k, a, b.drop_last());
    }
}

/// A serialized record, with what is kept apart from it.
pub struct EncodedRecord {
    /// The record itself.
    pub bytes: Vec<u8>,
    /// Its vector, where that is kept in a column of its own.
    pub column: Option<Vec<u8>>,
    /// Key and value of a new entry of the field registry.
    pub registry: Option<(Vec<u8>, Vec<u8>)>,
}

/// What an [`EncodedRecord`] holds.
pub struct EncodedRecordV {
    pub bytes: Seq<u8>,
    pub column: Option<Seq<u8>>,
    pub registry: Option<(Seq<u8>, Seq<u8>)>,
}

impl View for EncodedRecord {
    type V = EncodedRecordV;

    open spec fn view(&self) -> EncodedRecordV {
        EncodedRecordV {
            bytes: self.bytes@,
            column: ghost_ops::opt_bytes(self.column),
            registry: match self.registry {
                Some((k, v)) => Some((k@, v@)),
                None => None,
            },
        }
    }
}

/// The write of a vector's column, if there is one.
pub open spec fn column_op(key: Seq<u8>, e: EncodedRecordV) -> Seq<WriteOpV> {
    match e.column {
        Some(c) => seq![WriteOpV::PutVectors(key, c)],
        None => Seq::empty(),
    }
}

/// The write of a registry entry, if there is one.
pub open spec fn registry_op(e: EncodedRecordV) -> Seq<WriteOpV> {
    match e.registry {
        Some((k, v)) => seq![WriteOpV::PutDictionary(k, v)],
        None => Seq::empty(),
    }
}

/// A copy of bytes.
pub fn copy_bytes(b: &Vec<u8>) -> (r: Vec<u8>)
    ensures
        r@ == b@,
{
    let r = b.clone();
    assert(r@ =~= b@);
    r
}

/// Adds the write of a vector's column.
pub fn push_column(ops: &mut Vec<WriteOp>, key: &Vec<u8>, e: &EncodedRecord)
    ensures
        ops_view(final(ops)@) == ops_view(old(ops)@) + column_op(key@, e@),
{
    let ghost before = ops_view(ops@);
    match &e.column {
        Some(c) => {
            ops.push(WriteOp::PutVectors(copy_bytes(key), copy_bytes(c)));
            assert(ops_view(ops@) =~= before + column_op(key@, e@));
        },
        None => {
            assert(before + column_op(key@, e@) =~= before);
        },
    }
}

/// Adds the write of a registry entry.
pub fn push_registry(ops: &mut Vec<WriteOp>, e: &EncodedRecord)
    ensures
        ops_view(final(ops)@) == ops_view(old(ops)@) + registry_op(e@),
{
    let ghost before = ops_view(ops@);
    match &e.registry {
        Some((k, v)) => {
            ops.push(WriteOp::PutDictionary(copy_bytes(k), copy_bytes(v)));
            assert(ops_view(ops@) =~= before + registry_op(e@));
        },
        None => {
            assert(before + registry_op(e@) =~= before);
        },
    }
}

/// Adds one write.
pub fn push_op(ops: &mut Vec<WriteOp>, op: WriteOp)
    ensures
        ops_view(final(ops)@) == ops_view(old(ops)@).push(op@),
{
    let ghost before = ops_view(ops@);
    let ghost o = op@;
    ops.push(op);
    assert(ops_view(ops@) =~= before.push(o));
}

/// A write puts its value under its key in its keyspace, or removes what is under its
/// key there, and touches nothing else.
pub proof fn law_write_touches_its_key(k: Keyspaces, key: Seq<u8>, value: Seq<u8>, other: Seq<u8>)
    requires
        other != key,
    ensures
        ({
            let put = after_write(k, WriteOpV::PutSpatial(key, value));
            let removed = after_write(k, WriteOpV::RemoveSpatial(key));
            &&& put.spatial.contains_key(key) && put.spatial[key] == value
            &&& !removed.spatial.contains_key(key)
            &&& (put.spatial.contains_key(other) <==> k.spatial.contains_key(other))
                && put.spatial[other] == k.spatial[other]
            &&& (removed.spatial.contains_key(other) <==> k.spatial.contains_key(other))
            &&& put.identity == k.identity && put.vectors == k.vectors && put.dictionary
                == k.dictionary
            &&& removed.identity == k.identity && removed.vectors == k.vectors
                && removed.dictionary == k.dictionary
        }),
        ({
            let put = after_write(k, WriteOpV::PutIdentity(key, value));
            let removed = after_write(k, WriteOpV::RemoveIdentity(key));
            &&& put.identity.contains_key(key) && put.identity[key] == value
            &&& !removed.identity.contains_key(key)
            &&& put.spatial == k.spatial && put.vectors == k.vectors && put.dictionary
                == k.dictionary
            &&& removed.spatial == k.spatial && removed.vectors == k.vectors && removed.dictionary
                == k.dictionary
        }),
        ({
            let put = after_write(k, WriteOpV::PutVectors(key, value));
            let removed = after_write(k, WriteOpV::RemoveVectors(key));
            &&& put.vectors.contains_key(key) && put.vectors[key] == value
            &&& !removed.vectors.contains_key(key)
            &&& put.spatial == k.spatial && put.identity == k.identity && put.dictionary
                == k.dictionary
            &&& removed.spatial == k.spatial && removed.identity == k.identity
                && removed.dictionary == k.dictionary
        }),
        ({
            let put = after_write(k, WriteOpV::PutDictionary(key, value));
            let removed = after_write(k, WriteOpV::RemoveDictionary(key));
            &&& put.dictionary.contains_key(key) && put.dictionary[key] == value
            &&& !removed.dictionary.contains_key(key)
            &&& put.spatial == k.spatial && put.identity == k.identity && put.vectors == k.vectors
            &&& removed.spatial == k.spatial && removed.identity == k.identity
                && removed.vectors == k.vectors
        }),
{
}

/// What a record is written with: its vector goes to the column under its key, and a new
/// entry of the field registry to the dictionary, where there are such.
pub proof fn law_extras_are_written(k: Keyspaces, key: Seq<u8>, e: EncodedRecordV)
    ensures
        ({
            let a = after_writes(k, column_op(key, e) + registry_op(e));
            &&& e.column matches Some(c) ==> a.vectors.contains_key(key) && a.vectors[key] == c
            &&& e.column is None ==> a.vectors == k.vectors
            &&& e.registry matches Some((n, v)) ==> a.dictionary.contains_key(n) && a.dictionary[n]
                == v
            &&& e.registry is None ==> a.dictionary == k.dictionary
            &&& a.spatial == k.spatial && a.identity == k.identity
        }),
{
    law_writes_compose(k, column_op(key, e), registry_op(e));
    let b = after_writes(k, column_op(key, e));
    match e.column {
        Some(c) => {
            let op = WriteOpV::PutVectors(key, c);
            assert(seq![op].drop_last() =~= Seq::<WriteOpV>::empty());
            assert(seq![op].last() == op);
            assert(after_writes(k, Seq::<WriteOpV>::empty()) == k);
            assert(b == after_write(k, op));
        },
        None => {
            assert(b == k);
        },
    }
    match e.registry {
        Some((n, v)) => {
            let op = WriteOpV::PutDictionary(n, v);
            assert(seq![op].drop_last() =~= Seq::<WriteOpV>::empty());
            assert(seq![op].last() == op);
            assert(after_writes(b, Seq::<WriteOpV>::empty()) == b);
            assert(after_writes(b, registry_op(e)) == after_write(b, op));
        },
        None => {
            assert(after_writes(b, registry_op(e)) == b);
        },
    }
}

} // verus!
