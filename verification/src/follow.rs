//! Following references from records to others.

use crate::record::{Record, RecordV};
use crate::value::{Value, ValueV};
use vstd::prelude::*;

verus! {

/// The text by which a record refers to others.
pub open spec fn reference(rec: RecordV, field: Seq<char>) -> Option<Seq<char>> {
    if rec.fields.contains_key(field) {
        match rec.fields[field] {
            ValueV::Text(t) => Some(t),
            _ => None,
        }
    } else {
        None
    }
}

/// The references of records, each once, in the order in which they come first.
pub open spec fn references(rs: Seq<Record>, field: Seq<char>) -> Seq<Seq<char>>
    decreases rs.len(),
{
    if rs.len() == 0 {
        Seq::empty()
    } else {
        let before = references(rs.drop_last(), field);
        match reference(rs.last()@, field) {
            Some(t) => if before.contains(t) {
                before
            } else {
                before.push(t)
            },
            None => before,
        }
    }
}

/// The references of records, each once.
pub fn collect_references(records: &Vec<Record>, field: &str) -> (r: Vec<String>)
    ensures
        crate::text::names(r@) == references(records@, field@),
{
    let ghost rv = records@;
    let mut out: Vec<String> = Vec::new();
    let mut i: usize = 0;
    proof {
        assert(rv.take(0) =~= Seq::<Record>::empty());
        assert(crate::text::names(out@) =~= Seq::<Seq<char>>::empty());
    }
    while i < records.len()
        invariant
            i <= records@.len(),
            rv == records@,
            crate::text::names(out@) == references(rv.take(i as int), field@),
        decreases records@.len() - i,
    {
        proof {
            assert(rv.take(i + 1).drop_last() =~= rv.take(i as int));
            assert(rv.take(i + 1).last() == rv[i as int]);
        }
        if let Some(v) = records[i].fields.get(field) {
            assert(records@[i as int]@.fields[field@] == v@);
            match v {
                Value::Text(t) => {
                    if !crate::text::names_contain(out.as_slice(), t.as_str()) {
                        let ghost before = crate::text::names(out@);
                        out.push(t.clone());
                        assert(crate::text::names(out@) =~= before.push(t@));
                    }
                },
                _ => {},
            }
        }
        i = i + 1;
    }
    assert(rv.take(i as int) =~= rv);
    out
}

/// The identities of records.
pub open spec fn lids(s: Seq<Record>) -> Seq<u128> {
    s.map_values(|r: Record| r.lid)
}

/// The records, each identity once, in the order in which they come first.
pub open spec fn distinct(rs: Seq<Record>) -> Seq<Record>
    decreases rs.len(),
{
    if rs.len() == 0 {
        Seq::empty()
    } else {
        let before = distinct(rs.drop_last());
        if lids(before).contains(rs.last().lid) {
            before
        } else {
            before.push(rs.last())
        }
    }
}

/// The records that references lead to.
pub struct Followed {
    out: Vec<Record>,
    given: Ghost<Seq<Record>>,
}

impl Followed {
    /// The records that were given, in order.
    pub closed spec fn seen(&self) -> Seq<Record> {
        self.given@
    }

    #[verifier::type_invariant]
    spec fn wf(&self) -> bool {
        self.out@ == distinct(self.given@)
    }

    /// No record yet.
    pub fn new() -> (r: Self)
        ensures
            r.seen() == Seq::<Record>::empty(),
    {
        Followed { out: Vec::new(), given: Ghost(Seq::empty()) }
    }

    /// Gives a record that a reference leads to.
    pub fn give(&mut self, rec: Record)
        ensures
            final(self).seen() == old(self).seen().push(rec),
    {
        proof {
            use_type_invariant(&*self);
        }
        let ghost all = self.given@.push(rec);
        let ghost before = self.given@;
        let mut rest = Followed::new();
        std::mem::swap(self, &mut rest);
        let mut out = rest.out;
        assert(all.drop_last() =~= before);
        let mut known = false;
        let mut i: usize = 0;
        while i < out.len()
            invariant
                i <= out@.len(),
                out@ == distinct(before),
                known == (exists|j: int| 0 <= j < i && (#[trigger] out@[j]).lid == rec.lid),
            decreases out@.len() - i,
        {
            if out[i].lid == rec.lid {
                known = true;
            }
            i = i + 1;
        }
        proof {
            let l = lids(out@);
            assert(known == l.contains(rec.lid)) by {
                if known {
                    let j = choose|j: int| 0 <= j < i && (#[trigger] out@[j]).lid == rec.lid;
                    assert(l[j] == rec.lid);
                }
                if l.contains(rec.lid) {
                    let j = choose|j: int| 0 <= j < l.len() && l[j] == rec.lid;
                    assert(out@[j].lid == rec.lid);
                }
            }
        }
        if !known {
            out.push(rec);
        }
        *self = Followed { out, given: Ghost(all) };
    }

    /// The records, each once.
    pub fn finish(self) -> (r: Vec<Record>)
        ensures
            r@ == distinct(self.seen()),
    {
        proof {
            use_type_invariant(&self);
        }
        self.out
    }
}

/// No identity occurs twice among the records that are followed to, and none is
/// lost.
pub proof fn law_followed_records_are_distinct(rs: Seq<Record>)
    ensures
        forall|i: int, j: int|
            0 <= i < j < distinct(rs).len() ==> (#[trigger] distinct(rs)[i]).lid != (
            #[trigger] distinct(rs)[j]).lid,
        forall|i: int| 0 <= i < rs.len() ==> lids(distinct(rs)).contains((#[trigger] rs[i]).lid),
    decreases rs.len(),
{
    if rs.len() > 0 {
        let d = rs.drop_last();
        law_followed_records_are_distinct(d);
        let b = distinct(d);
        let r = distinct(rs);
        let x = rs.last();
        assert forall|i: int, j: int| 0 <= i < j < r.len() implies (#[trigger] r[i]).lid != (
        #[trigger] r[j]).lid by {
            if j < b.len() {
                assert(r[i] == b[i] && r[j] == b[j]);
            } else {
                assert(r[i] == b[i]);
                assert(lids(b)[i] == b[i].lid);
            }
        }
        assert forall|i: int| 0 <= i < rs.len() implies lids(r).contains((#[trigger] rs[i]).lid) by {
            if i < d.len() {
                assert(d[i] == rs[i]);
                assert(lids(b).contains(d[i].lid));
                let j = choose|j: int| 0 <= j < lids(b).len() && lids(b)[j] == d[i].lid;
                assert(lids(r)[j] == d[i].lid);
            } else if !lids(b).contains(x.lid) {
                assert(lids(r)[b.len() as int] == x.lid);
            }
        }
    }
}

/// The references of records are the texts that they have in the field, each once.
pub proof fn law_references_are_texts_of_field(rs: Seq<Record>, field: Seq<char>, t: Seq<char>)
    ensures
        references(rs, field).contains(t) <==> exists|i: int|
            #![trigger rs[i]]
            0 <= i < rs.len() && rs[i]@.fields.contains_key(field) && rs[i]@.fields[field]
                == ValueV::Text(t),
        forall|i: int, j: int|
            0 <= i < j < references(rs, field).len() ==> #[trigger] references(rs, field)[i]
                != #[trigger] references(rs, field)[j],
    decreases rs.len(),
{
    if rs.len() > 0 {
        let d = rs.drop_last();
        law_references_are_texts_of_field(d, field, t);
        let before = references(d, field);
        let after = references(rs, field);
        if before.contains(t) {
            let k = choose|k: int| 0 <= k < before.len() && before[k] == t;
            assert(after[k] == t);
            let i = choose|i: int|
                #![trigger d[i]]
                0 <= i < d.len() && d[i]@.fields.contains_key(field) && d[i]@.fields[field]
                    == ValueV::Text(t);
            assert(rs[i] == d[i]);
        }
        if exists|i: int|
            #![trigger rs[i]]
            0 <= i < rs.len() && rs[i]@.fields.contains_key(field) && rs[i]@.fields[field]
                == ValueV::Text(t) {
            let i = choose|i: int|
                #![trigger rs[i]]
                0 <= i < rs.len() && rs[i]@.fields.contains_key(field) && rs[i]@.fields[field]
                    == ValueV::Text(t);
            if i < d.len() {
                assert(d[i] == rs[i]);
            } else if !before.contains(t) {
                assert(after[before.len() as int] == t);
            }
        }
        if after.contains(t) && !before.contains(t) {
            assert(rs[rs.len() - 1] == rs.last());
        }
        match reference(rs.last()@, field) {
            Some(x) => {
                if !before.contains(x) {
                    assert forall|i: int, j: int| 0 <= i < j < after.len() implies #[trigger] after[i]
                        != #[trigger] after[j] by {
                        assert(after[i] == before[i]);
                        assert(before.contains(before[i]));
                        if j < before.len() {
                            assert(after[j] == before[j]);
                        }
                    }
                }
            },
            None => {},
        }
    }
}

/// Of the records that were followed to with one identity the first is kept.
pub proof fn law_first_of_identity_is_kept(rs: Seq<Record>, i: int)
    requires
        0 <= i < rs.len(),
        forall|j: int| 0 <= j < i ==> (#[trigger] rs[j]).lid != rs[i].lid,
    ensures
        distinct(rs).contains(rs[i]),
    decreases rs.len(),
{
    let d = rs.drop_last();
    let before = distinct(d);
    let after = distinct(rs);
    if i < d.len() {
        assert forall|j: int| 0 <= j < i implies (#[trigger] d[j]).lid != d[i].lid by {
            assert(d[j] == rs[j]);
        }
        law_first_of_identity_is_kept(d, i);
        let k = choose|k: int| 0 <= k < before.len() && before[k] == d[i];
        assert(after[k] == rs[i]);
    } else {
        if lids(before).contains(rs[i].lid) {
            let k = choose|k: int| 0 <= k < before.len() && lids(before)[k] == rs[i].lid;
            lemma_distinct_are_given(d, k);
            let j = choose|j: int| 0 <= j < d.len() && d[j] == before[k];
            assert(rs[j].lid != rs[i].lid);
        }
        assert(after[before.len() as int] == rs[i]);
    }
}

proof fn lemma_distinct_are_given(rs: Seq<Record>, k: int)
    requires
        0 <= k < distinct(rs).len(),
    ensures
        rs.contains(distinct(rs)[k]),
    decreases rs.len(),
{
    let d = rs.drop_last();
    if k < distinct(d).len() {
        lemma_distinct_are_given(d, k);
        let j = choose|j: int| 0 <= j < d.len() && d[j] == distinct(d)[k];
        assert(rs[j] == distinct(rs)[k]);
    } else {
        assert(rs[rs.len() - 1] == distinct(rs)[k]);
    }
}

/// Every record kept is one that was followed to.
pub proof fn law_kept_were_followed_to(rs: Seq<Record>)
    ensures
        forall|k: int| 0 <= k < distinct(rs).len() ==> rs.contains(#[trigger] distinct(rs)[k]),
{
    assert forall|k: int| 0 <= k < distinct(rs).len() implies rs.contains(
        #[trigger] distinct(rs)[k],
    ) by {
        lemma_distinct_are_given(rs, k);
    }
}

} // verus!
