//! Records and the predicates that select them.

use crate::sorted_map::SortedMap;
use crate::value::{Value, ValueV};
use vstd::prelude::*;

verus! {

/// A comparison of a predicate.
#[derive(Clone, Copy, Debug, PartialEq, Eq, Structural)]
pub enum FilterOp {
    Eq,
    Neq,
    Gt,
    Gte,
    Lt,
    Lte,
    IsNull,
    IsNotNull,
    Contains,
    In,
}

/// What a predicate `(field, operator, value)` stands for.
pub open spec fn predicate_view(p: (String, FilterOp, Value)) -> (Seq<char>, FilterOp, ValueV) {
    (p.0@, p.1, p.2@)
}

/// What a list of predicates stands for.
pub open spec fn predicates_view(s: Seq<(String, FilterOp, Value)>) -> Seq<
    (Seq<char>, FilterOp, ValueV),
> {
    Seq::new(s.len(), |i: int| predicate_view(s[i]))
}

/// A record's fields by name.
pub type Fields = SortedMap<Value>;

/// What the fields of a record stand for.
pub open spec fn fields_view(f: Map<Seq<char>, Value>) -> Map<Seq<char>, ValueV> {
    f.map_values(|v: Value| v@)
}

/// One record of a lobe.
#[derive(Debug)]
pub struct Record {
    /// The record's identity.
    pub lid: u128,
    pub lobe_name: String,
    pub fields: Fields,
    pub created_at: i64,
    pub updated_at: i64,
}

/// What a [`Record`] stands for.
pub struct RecordV {
    pub lid: u128,
    pub lobe_name: Seq<char>,
    pub fields: Map<Seq<char>, ValueV>,
    pub created_at: i64,
    pub updated_at: i64,
}

impl View for Record {
    type V = RecordV;

    open spec fn view(&self) -> RecordV {
        RecordV {
            lid: self.lid,
            lobe_name: self.lobe_name@,
            fields: fields_view(self.fields@),
            created_at: self.created_at,
            updated_at: self.updated_at,
        }
    }
}

/// A copy of a record's fields.
pub fn clone_fields(f: &Fields) -> (r: Fields)
    ensures
        fields_view(r@) == fields_view(f@),
{
    let mut r: Fields = SortedMap::new();
    let mut i: usize = 0;
    proof {
        use_type_invariant(f);
        f.lemma_listed();
        assert(fields_view(r@) =~= Map::<Seq<char>, ValueV>::empty());
    }
    while i < f.len()
        invariant
            f.wf(),
            i <= f.listed().len(),
            f@ == crate::sorted_map::entries_map(f.listed()),
            forall|k: Seq<char>| #[trigger]
                r@.contains_key(k) <==> exists|j: int|
                    0 <= j < i && crate::sorted_map::holds_at(f.listed(), k, j),
            forall|k: Seq<char>| #[trigger] r@.contains_key(k) ==> r@[k]@ == f@[k]@,
        decreases f.listed().len() - i,
    {
        let ghost before = r@;
        r.insert(f.name_at(i).clone(), f.value_at(i).clone_value());
        proof {
            let name = f.listed()[i as int].0@;
            crate::sorted_map::lemma_entry_in_map(f.listed(), i as int);
            assert(crate::sorted_map::holds_at(f.listed(), name, i as int));
            assert forall|k: Seq<char>| #[trigger] r@.contains_key(k) <==> exists|j: int|
                0 <= j < i + 1 && crate::sorted_map::holds_at(f.listed(), k, j) by {
                if r@.contains_key(k) && k != name {
                    assert(before.contains_key(k));
                    let j = choose|j: int|
                        0 <= j < i && crate::sorted_map::holds_at(f.listed(), k, j);
                    assert(0 <= j < i + 1 && crate::sorted_map::holds_at(f.listed(), k, j));
                }
                if exists|j: int|
                    0 <= j < i + 1 && crate::sorted_map::holds_at(f.listed(), k, j) {
                    let j = choose|j: int|
                        0 <= j < i + 1 && crate::sorted_map::holds_at(f.listed(), k, j);
                    if j < i {
                        assert(before.contains_key(k));
                    }
                }
            }
        }
        i = i + 1;
    }
    proof {
        assert forall|k: Seq<char>| #[trigger] r@.contains_key(k) <==> f@.contains_key(k) by {
            if f@.contains_key(k) {
                let j = choose|j: int| crate::sorted_map::holds_at(f.listed(), k, j);
                assert(0 <= j < i && crate::sorted_map::holds_at(f.listed(), k, j));
            }
        }
        assert(fields_view(r@) =~= fields_view(f@));
    }
    r
}

/// The fields with others put over them.
pub fn extend_fields(base: Fields, over: Fields) -> (r: Fields)
    ensures
        fields_view(r@) == fields_view(base@).union_prefer_right(
            fields_view(over@),
        ),
{
    let mut r = base;
    let ghost bv = fields_view(r@);
    let ghost ov = fields_view(over@);
    let ghost listed = over.listed();
    let mut i: usize = 0;
    proof {
        use_type_invariant(&over);
        over.lemma_listed();
        assert(bv =~= bv.union_prefer_right(
            ov.restrict(Set::new(|k: Seq<char>| exists|j: int| 0 <= j < 0 && listed[j].0@ == k)),
        ));
    }
    while i < over.len()
        invariant
            i <= listed.len(),
            listed == over.listed(),
            over.wf(),
            over@ == crate::sorted_map::entries_map(listed),
            ov == fields_view(over@),
            fields_view(r@) == bv.union_prefer_right(
                ov.restrict(
                    Set::new(|k: Seq<char>| exists|j: int| 0 <= j < i && listed[j].0@ == k),
                ),
            ),
        decreases listed.len() - i,
    {
        let ghost before = fields_view(r@);
        r.insert(over.name_at(i).clone(), over.value_at(i).clone_value());
        proof {
            let name = listed[i as int].0@;
            crate::sorted_map::lemma_entry_in_map(listed, i as int);
            let a = Set::new(|k: Seq<char>| exists|j: int| 0 <= j < i && listed[j].0@ == k);
            let b = Set::new(|k: Seq<char>| exists|j: int| 0 <= j < i + 1 && listed[j].0@ == k);
            assert(listed[i as int].0@ == name);
            assert(b =~= a.insert(name)) by {
                assert forall|k: Seq<char>| b.contains(k) == a.insert(name).contains(k) by {
                    if b.contains(k) {
                        let j = choose|j: int| 0 <= j < i + 1 && listed[j].0@ == k;
                        if j < i {
                            assert(a.contains(k));
                        }
                    }
                    if a.contains(k) {
                        let j = choose|j: int| 0 <= j < i && listed[j].0@ == k;
                        assert(0 <= j < i + 1 && listed[j].0@ == k);
                    }
                    if k == name {
                        assert(0 <= (i as int) < i + 1 && listed[i as int].0@ == k);
                    }
                }
            }
            assert(ov.contains_key(name));
            assert(fields_view(r@) =~= before.insert(name, ov[name]));
            assert(fields_view(r@) =~= bv.union_prefer_right(ov.restrict(b)));
        }
        i = i + 1;
    }
    proof {
        let all = Set::new(|k: Seq<char>| exists|j: int| 0 <= j < i && listed[j].0@ == k);
        assert forall|k: Seq<char>| ov.contains_key(k) implies all.contains(k) by {
            let j = choose|j: int| crate::sorted_map::holds_at(listed, k, j);
            assert(0 <= j < i && listed[j].0@ == k);
        }
        assert(ov.restrict(all) =~= ov);
    }
    r
}

impl Record {
    /// A copy.
    pub fn clone_record(&self) -> (r: Record)
        ensures
            r@ == self@,
    {
        Record {
            lid: self.lid,
            lobe_name: self.lobe_name.clone(),
            fields: clone_fields(&self.fields),
            created_at: self.created_at,
            updated_at: self.updated_at,
        }
    }
}

} // verus!
