//! Similarity search: the records whose embeddings are nearest to a query.

use crate::aggregate;
use crate::ast;
use crate::ast::{FilterExpr, FilterExprV, Literal};
use crate::bytes;
use crate::error;
use crate::error::XyzError;
use crate::filter;
use crate::float;
use crate::record;
use crate::record::{Fields, FilterOp, Record, RecordV};
use crate::selection;
use crate::text;
use crate::top_k;
use crate::top_k::{Ranked, TopK};
use crate::value::{Value, ValueV};
use vstd::prelude::*;

verus! {

/// How similarity is measured.
#[derive(Clone, Copy, Debug, PartialEq, Eq, Structural)]
pub enum SimilarityMetric {
    Cosine,
    Dot,
    L2,
}

/// What a search compares with.
pub enum NearestQuery {
    /// A vector.
    Vector(Literal),
    /// A parameter that is not bound.
    Param(String),
    /// The embedding of the record that has this text in a field.
    Ref(String),
}

/// A similarity search.
pub struct NearestStmt {
    pub field: String,
    pub query: NearestQuery,
    pub k: usize,
    pub metric: String,
}

/// The vector arithmetic of the storage layer: which metric a name means, which
/// vector a value is, and how similar two vectors are. Vectors are the bits of
/// singles, similarities the bits of doubles.
pub struct DistanceOps<M, A, S> {
    pub metric: M,
    pub vector: A,
    pub similarity: S,
}

/// What optional components are.
pub open spec fn opt_vector(v: Option<Vec<u32>>) -> Option<Seq<u32>> {
    match v {
        Some(x) => Some(x@),
        None => None,
    }
}

/// A field of the record holds the text.
pub open spec fn holds_text(fields: Map<Seq<char>, ValueV>, id: Seq<char>) -> bool {
    exists|k: Seq<char>| #[trigger] fields.contains_key(k) && fields[k] == ValueV::Text(id)
}

/// Whether a field of the record holds the text.
pub fn has_field_value(fields: &Fields, id: &str) -> (r: bool)
    ensures
        r == holds_text(record::fields_view(fields@), id@),
{
    let ghost fv = record::fields_view(fields@);
    let mut i: usize = 0;
    proof {
        use_type_invariant(fields);
        fields.lemma_listed();
    }
    while i < fields.len()
        invariant
            fields.wf(),
            i <= fields.listed().len(),
            fields@ == crate::sorted_map::entries_map(fields.listed()),
            fv == record::fields_view(fields@),
            forall|j: int|
                0 <= j < i ==> (#[trigger] fields.listed()[j]).1@ != ValueV::Text(id@),
        decreases fields.listed().len() - i,
    {
        let v = fields.value_at(i);
        let same = match v {
            Value::Text(t) => bytes::str_equal(t.as_str(), id),
            _ => false,
        };
        assert(same == (v@ == ValueV::Text(id@)));
        if same {
            proof {
                crate::sorted_map::lemma_entry_in_map(fields.listed(), i as int);
                assert(fv.contains_key(fields.listed()[i as int].0@));
            }
            return true;
        }
        i = i + 1;
    }
    proof {
        if holds_text(fv, id@) {
            let k = choose|k: Seq<char>| #[trigger]
                fv.contains_key(k) && fv[k] == ValueV::Text(id@);
            assert(fields@.contains_key(k));
            let j = choose|j: int| crate::sorted_map::holds_at(fields.listed(), k, j);
            crate::sorted_map::lemma_entry_in_map(fields.listed(), j);
            assert(fields.listed()[j].1@ != ValueV::Text(id@));
        }
    }
    false
}

/// The record at `i` has the text in a field.
pub open spec fn refers(records: Seq<Record>, id: Seq<char>, i: int) -> bool {
    0 <= i < records.len() && holds_text(records[i]@.fields, id)
}

/// Two of the records have the text in a field.
pub open spec fn ambiguous(records: Seq<Record>, id: Seq<char>) -> bool {
    exists|i: int, j: int| i < j && #[trigger] refers(records, id, i) && #[trigger] refers(records, id, j)
}

impl<
    M: Fn(&str) -> Option<SimilarityMetric>,
    A: Fn(&Value) -> Option<Vec<u32>>,
    S: Fn(SimilarityMetric, &[u32], &[u32]) -> Option<u64>,
> DistanceOps<M, A, S> {
    /// The arithmetic accepts everything and depends on nothing but what the
    /// arguments stand for.
    pub open spec fn sound(&self) -> bool {
        &&& forall|s: &str| #[trigger] self.metric.requires((s,))
        &&& forall|s: &str, t: &str, a: Option<SimilarityMetric>, b: Option<SimilarityMetric>|
            #![trigger self.metric.ensures((s,), a), self.metric.ensures((t,), b)]
            self.metric.ensures((s,), a) && self.metric.ensures((t,), b) && s@ == t@ ==> a == b
        &&& forall|v: &Value| #[trigger] self.vector.requires((v,))
        &&& forall|v: &Value, w: &Value, a: Option<Vec<u32>>, b: Option<Vec<u32>>|
            #![trigger self.vector.ensures((v,), a), self.vector.ensures((w,), b)]
            self.vector.ensures((v,), a) && self.vector.ensures((w,), b) && v@ == w@
                ==> opt_vector(a) == opt_vector(b)
        &&& forall|m: SimilarityMetric, x: &[u32], y: &[u32]| #[trigger]
            self.similarity.requires((m, x, y))
        &&& forall|
            m: SimilarityMetric,
            x: &[u32],
            y: &[u32],
            u: &[u32],
            v: &[u32],
            a: Option<u64>,
            b: Option<u64>,
        |
            #![trigger self.similarity.ensures((m, x, y), a), self.similarity.ensures((m, u, v), b)]
            self.similarity.ensures((m, x, y), a) && self.similarity.ensures((m, u, v), b) && x@
                == u@ && y@ == v@ ==> a == b
    }

    /// `m` is what the name means.
    pub open spec fn means(&self, name: Seq<char>, m: Option<SimilarityMetric>) -> bool {
        exists|s: &str| s@ == name && #[trigger] self.metric.ensures((s,), m)
    }

    /// The metric of a name.
    pub open spec fn metric_of(&self, name: Seq<char>) -> Option<SimilarityMetric> {
        choose|m: Option<SimilarityMetric>| self.means(name, m)
    }

    /// `x` is the vector of the value.
    pub open spec fn is_vector(&self, v: ValueV, x: Option<Seq<u32>>) -> bool {
        exists|w: &Value, r: Option<Vec<u32>>|
            w@ == v && opt_vector(r) == x && #[trigger] self.vector.ensures((w,), r)
    }

    /// The vector that a value is.
    pub open spec fn vector_of(&self, v: ValueV) -> Option<Seq<u32>> {
        choose|x: Option<Seq<u32>>| self.is_vector(v, x)
    }

    /// `s` is the similarity of the vectors.
    pub open spec fn is_similarity(
        &self,
        m: SimilarityMetric,
        x: Seq<u32>,
        y: Seq<u32>,
        s: Option<u64>,
    ) -> bool {
        exists|a: &[u32], b: &[u32]|
            a@ == x && b@ == y && #[trigger] self.similarity.ensures((m, a, b), s)
    }

    /// The similarity of two vectors, where it is defined.
    pub open spec fn similarity_of(
        &self,
        m: SimilarityMetric,
        x: Seq<u32>,
        y: Seq<u32>,
    ) -> Option<u64> {
        choose|s: Option<u64>| self.is_similarity(m, x, y, s)
    }

    /// The metric of a name.
    pub fn parse_metric(&self, name: &str) -> (r: Option<SimilarityMetric>)
        requires
            self.sound(),
        ensures
            r == self.metric_of(name@),
    {
        let r = (self.metric)(name);
        assert(self.means(name@, r));
        r
    }

    /// The vector that a value is.
    pub fn as_vector(&self, v: &Value) -> (r: Option<Vec<u32>>)
        requires
            self.sound(),
        ensures
            opt_vector(r) == self.vector_of(v@),
    {
        let r = (self.vector)(v);
        assert(self.is_vector(v@, opt_vector(r)));
        r
    }

    /// The similarity of two vectors.
    pub fn measure(&self, m: SimilarityMetric, x: &[u32], y: &[u32]) -> (r: Option<u64>)
        requires
            self.sound(),
        ensures
            r == self.similarity_of(m, x@, y@),
    {
        let r = (self.similarity)(m, x, y);
        assert(self.is_similarity(m, x@, y@, r));
        r
    }

    /// The vector in a field, if it holds one.
    pub open spec fn embedding(&self, fields: Map<Seq<char>, ValueV>, field: Seq<char>) -> Option<
        Seq<u32>,
    > {
        if fields.contains_key(field) {
            self.vector_of(fields[field])
        } else {
            None
        }
    }

    /// The vector in a field, if it holds one.
    pub fn field_embedding(&self, fields: &Fields, field: &str) -> (r: Option<Vec<u32>>)
        requires
            self.sound(),
        ensures
            opt_vector(r) == self.embedding(record::fields_view(fields@), field@),
    {
        match fields.get(field) {
            Some(v) => {
                assert(record::fields_view(fields@)[field@] == v@);
                self.as_vector(v)
            },
            None => None,
        }
    }

    /// What a reference resolves to: the vector of the one record that has the
    /// text, or why there is none.
    pub open spec fn is_ref(
        &self,
        records: Seq<Record>,
        field: Seq<char>,
        id: Seq<char>,
        r: Result<Vec<u32>, XyzError>,
    ) -> bool {
        if ambiguous(records, id) {
            error::is_invalid(
                r,
                "NEAREST: REF \""@ + id
                    + "\" is ambiguous — matches more than one scanned record"@,
            )
        } else if !(exists|i: int| #[trigger] refers(records, id, i)) {
            error::is_invalid(
                r,
                "NEAREST: REF \""@ + id + "\" not found among the scanned records"@,
            )
        } else {
            let i = choose|i: int| #[trigger] refers(records, id, i);
            match self.embedding(records[i]@.fields, field) {
                Some(x) => r matches Ok(v) && v@ == x,
                None => error::is_invalid(
                    r,
                    "NEAREST: REF \""@ + id + "\" has no numeric '"@ + field + "'"@,
                ),
            }
        }
    }

    /// Resolves a reference among the scanned records.
    #[verifier::loop_isolation(false)]
    pub fn resolve_ref(&self, records: &Vec<Record>, field: &str, id: &str) -> (r: Result<
        Vec<u32>,
        XyzError,
    >)
        requires
            self.sound(),
        ensures
            self.is_ref(records@, field@, id@, r),
    {
        let mut found: Option<usize> = None;
        let mut i: usize = 0;
        while i < records.len()
            invariant
                i <= records@.len(),
                match found {
                    Some(f) => f < i && refers(records@, id@, f as int) && forall|j: int|
                        0 <= j < i && #[trigger] refers(records@, id@, j) ==> j == f,
                    None => forall|j: int| 0 <= j < i ==> !(#[trigger] refers(records@, id@, j)),
                },
            decreases records@.len() - i,
        {
            if has_field_value(&records[i].fields, id) {
                assert(refers(records@, id@, i as int));
                if let Some(f) = found {
                    proof {
                        assert(refers(records@, id@, f as int));
                        assert(ambiguous(records@, id@));
                    }
                    return error::invalid(
                        text::join3(
                            "NEAREST: REF \"",
                            id,
                            "\" is ambiguous — matches more than one scanned record",
                        ).as_str(),
                    );
                }
                found = Some(i);
            }
            i = i + 1;
        }
        proof {
            if ambiguous(records@, id@) {
                let (a, b) = choose|a: int, b: int|
                    a < b && #[trigger] refers(records@, id@, a) && #[trigger] refers(
                        records@,
                        id@,
                        b,
                    );
                assert(refers(records@, id@, a) && refers(records@, id@, b));
                assert(false);
            }
        }
        match found {
            None => error::invalid(
                text::join3(
                    "NEAREST: REF \"",
                    id,
                    "\" not found among the scanned records",
                ).as_str(),
            ),
            Some(f) => {
                proof {
                    let c = choose|c: int| #[trigger] refers(records@, id@, c);
                    assert(refers(records@, id@, c));
                    assert(c == f as int);
                }
                match self.field_embedding(&records[f].fields, field) {
                    Some(v) => Ok(v),
                    None => {
                        let mut m = text::join3("NEAREST: REF \"", id, "\" has no numeric '");
                        m.append(field);
                        m.append("'");
                        error::invalid(m.as_str())
                    },
                }
            },
        }
    }

    /// The similarity by which a record competes: it is not the excluded one,
    /// has an embedding, and the similarity is defined.
    pub open spec fn score_of(
        &self,
        rec: RecordV,
        field: Seq<char>,
        query: Seq<u32>,
        exclude: Option<Seq<char>>,
        metric: SimilarityMetric,
    ) -> Option<u64> {
        if exclude matches Some(id) && holds_text(rec.fields, id) {
            None
        } else {
            match self.embedding(rec.fields, field) {
                Some(v) => self.similarity_of(metric, query, v),
                None => None,
            }
        }
    }

    /// The records that compete.
    pub open spec fn candidates(
        &self,
        records: Seq<Record>,
        field: Seq<char>,
        query: Seq<u32>,
        exclude: Option<Seq<char>>,
        metric: SimilarityMetric,
    ) -> Seq<Ranked<Record>>
        decreases records.len(),
    {
        if records.len() == 0 {
            Seq::empty()
        } else {
            let before = self.candidates(records.drop_last(), field, query, exclude, metric);
            match self.score_of(records.last()@, field, query, exclude, metric) {
                Some(score) => before.push(
                    Ranked { score, lid: records.last().lid, item: records.last() },
                ),
                None => before,
            }
        }
    }

    /// The query vector of a search, or why there is none.
    pub open spec fn is_query(
        &self,
        records: Seq<Record>,
        stmt: NearestStmt,
        r: Result<Vec<u32>, XyzError>,
    ) -> bool {
        match stmt.query {
            NearestQuery::Vector(lit) => match self.vector_of(filter::literal_value(lit@)) {
                Some(x) => r matches Ok(v) && v@ == x,
                None => error::is_invalid(r, "NEAREST: query must be a list of numbers"@),
            },
            NearestQuery::Param(name) => error::is_invalid(
                r,
                "NEAREST: unbound parameter $"@ + name@ + " — pass it via run_with_params"@,
            ),
            NearestQuery::Ref(id) => self.is_ref(records, stmt.field@, id@, r),
        }
    }

    /// What a search excludes: the record that it refers to.
    pub open spec fn excluded(query: NearestQuery) -> Option<Seq<char>> {
        match query {
            NearestQuery::Ref(id) => Some(id@),
            _ => None,
        }
    }

    /// What a search among records leads to: the best of them, or why it fails.
    pub open spec fn is_nearest(
        &self,
        records: Seq<Record>,
        stmt: NearestStmt,
        r: Result<Vec<Record>, XyzError>,
    ) -> bool {
        match self.metric_of(stmt.metric@) {
            None => error::is_invalid(
                r,
                "NEAREST: unknown metric '"@ + stmt.metric@ + "'. Expected cosine, dot, or l2"@,
            ),
            Some(metric) => exists|q: Result<Vec<u32>, XyzError>| #[trigger]
                self.is_query(records, stmt, q) && match q {
                    Err(e) => r == Err::<Vec<Record>, XyzError>(e),
                    Ok(query) => r matches Ok(v) && v@ == items_of(
                        top_k::best(
                            self.candidates(
                                records,
                                stmt.field@,
                                query@,
                                Self::excluded(stmt.query),
                                metric,
                            ),
                            stmt.k as nat,
                        ),
                    ),
                },
        }
    }

    /// The query vector of a search.
    fn query_vector(&self, records: &Vec<Record>, stmt: &NearestStmt) -> (r: Result<
        Vec<u32>,
        XyzError,
    >)
        requires
            self.sound(),
            stmt.query matches NearestQuery::Vector(lit) ==> ast::bound(lit@),
        ensures
            self.is_query(records@, *stmt, r),
    {
        match &stmt.query {
            NearestQuery::Vector(lit) => {
                let v = filter::literal_to_value(lit);
                match self.as_vector(&v) {
                    Some(x) => Ok(x),
                    None => error::invalid("NEAREST: query must be a list of numbers"),
                }
            },
            NearestQuery::Param(name) => error::invalid(
                text::join3(
                    "NEAREST: unbound parameter $",
                    name.as_str(),
                    " — pass it via run_with_params",
                ).as_str(),
            ),
            NearestQuery::Ref(id) => self.resolve_ref(records, stmt.field.as_str(), id.as_str()),
        }
    }

    /// The records nearest to the query, most similar first and equally similar
    /// ones by identity. Records without a comparable embedding are skipped, and
    /// so is the one that the query refers to.
    pub fn execute_nearest(&self, records: Vec<Record>, stmt: &NearestStmt) -> (r: Result<
        Vec<Record>,
        XyzError,
    >)
        requires
            self.sound(),
            stmt.query matches NearestQuery::Vector(lit) ==> ast::bound(lit@),
        ensures
            self.is_nearest(records@, *stmt, r),
    {
        let metric = match self.parse_metric(stmt.metric.as_str()) {
            Some(m) => m,
            None => {
                return error::invalid(
                    text::join3(
                        "NEAREST: unknown metric '",
                        stmt.metric.as_str(),
                        "'. Expected cosine, dot, or l2",
                    ).as_str(),
                );
            },
        };
        let q = self.query_vector(&records, stmt);
        let ghost qv = q;
        let query = match q {
            Ok(v) => v,
            Err(e) => {
                assert(self.is_query(records@, *stmt, qv));
                return Err(e);
            },
        };
        assert(self.is_query(records@, *stmt, qv));
        let ghost all = records@;
        let ghost ex = Self::excluded(stmt.query);
        let mut top: TopK<Record> = TopK::new(stmt.k);
        let mut todo = crate::sort::reversed(records);
        let ghost n = all.len();
        let ghost mut i: int = 0;
        assert(all.take(0) =~= Seq::<Record>::empty());
        while todo.len() > 0
            invariant
                self.sound(),
                n == all.len(),
                0 <= i,
                i + todo@.len() == n,
                forall|j: int| 0 <= j < todo@.len() ==> #[trigger] todo@[j] == all[n - 1 - j],
                ex == Self::excluded(stmt.query),
                top.wanted() == stmt.k,
                top.seen() == self.candidates(all.take(i), stmt.field@, query@, ex, metric),
            decreases todo@.len(),
        {
            if let Some(rec) = todo.pop() {
                proof {
                    assert(rec == all[i]);
                    assert(all.take(i + 1).drop_last() =~= all.take(i));
                    assert(all.take(i + 1).last() == all[i]);
                    i = i + 1;
                }
                let skip = match &stmt.query {
                    NearestQuery::Ref(id) => has_field_value(&rec.fields, id.as_str()),
                    _ => false,
                };
                if !skip {
                    if let Some(v) = self.field_embedding(&rec.fields, stmt.field.as_str()) {
                        if let Some(score) = self.measure(metric, query.as_slice(), v.as_slice()) {
                            let lid: u128 = rec.lid;
                            top.offer(score, lid, rec);
                        }
                    }
                }
            }
        }
        assert(all.take(i) =~= all);
        Ok(take_items(top.into_best()))
    }
}

/// Of two similarities the first is the greater one, or both are the same number and
/// the first record has the smaller identity. What is not a number is less similar than
/// any number.
pub open spec fn more_similar(s: u64, lid: u128, t: u64, other: u128) -> bool {
    ||| float::float_lt(t, s)
    ||| float::float_eq(s, t) && lid < other
    ||| !float::is_nan(s) && float::is_nan(t)
    ||| float::is_nan(s) && float::is_nan(t) && lid < other
}

impl<
    M: Fn(&str) -> Option<SimilarityMetric>,
    A: Fn(&Value) -> Option<Vec<u32>>,
    S: Fn(SimilarityMetric, &[u32], &[u32]) -> Option<u64>,
> DistanceOps<M, A, S> {
    /// What stands for the arithmetic is what the functions give that were handed in.
    pub proof fn law_arithmetic_is_handed_in(
        &self,
        name: &str,
        m: Option<SimilarityMetric>,
        v: &Value,
        x: Option<Vec<u32>>,
        metric: SimilarityMetric,
        a: &[u32],
        b: &[u32],
        s: Option<u64>,
    )
        requires
            self.sound(),
        ensures
            self.metric.ensures((name,), m) ==> self.metric_of(name@) == m,
            self.vector.ensures((v,), x) ==> match x {
                Some(c) => self.vector_of(v@) == Some(c@),
                None => self.vector_of(v@) is None,
            },
            self.similarity.ensures((metric, a, b), s) ==> self.similarity_of(metric, a@, b@) == s,
    {
        if self.metric.ensures((name,), m) {
            assert(self.means(name@, m));
        }
        if self.vector.ensures((v,), x) {
            assert(self.is_vector(v@, opt_vector(x)));
        }
        if self.similarity.ensures((metric, a, b), s) {
            assert(self.is_similarity(metric, a@, b@, s));
        }
    }

    proof fn lemma_candidates_are_scored(
        &self,
        records: Seq<Record>,
        field: Seq<char>,
        query: Seq<u32>,
        exclude: Option<Seq<char>>,
        metric: SimilarityMetric,
    )
        ensures
            ({
                let c = self.candidates(records, field, query, exclude, metric);
                &&& forall|i: int|
                    0 <= i < c.len() ==> records.contains((#[trigger] c[i]).item) && c[i].lid
                        == c[i].item.lid && self.score_of(
                        c[i].item@,
                        field,
                        query,
                        exclude,
                        metric,
                    ) == Some(c[i].score)
                &&& forall|i: int|
                    0 <= i < records.len() ==> (self.score_of(
                        (#[trigger] records[i])@,
                        field,
                        query,
                        exclude,
                        metric,
                    ) matches Some(s) ==> c.contains(
                        Ranked { score: s, lid: records[i].lid, item: records[i] },
                    ))
                &&& c.len() <= records.len()
            }),
        decreases records.len(),
    {
        if records.len() > 0 {
            let d = records.drop_last();
            self.lemma_candidates_are_scored(d, field, query, exclude, metric);
            let q = self.candidates(d, field, query, exclude, metric);
            let c = self.candidates(records, field, query, exclude, metric);
            assert forall|i: int| 0 <= i < c.len() implies records.contains((#[trigger] c[i]).item)
                && c[i].lid == c[i].item.lid && self.score_of(
                c[i].item@,
                field,
                query,
                exclude,
                metric,
            ) == Some(c[i].score) by {
                if i < q.len() {
                    assert(c[i] == q[i]);
                    let j = choose|j: int| 0 <= j < d.len() && d[j] == q[i].item;
                    assert(records[j] == c[i].item);
                } else {
                    assert(records[records.len() - 1] == c[i].item);
                }
            }
            assert forall|i: int| 0 <= i < records.len() implies (self.score_of(
                (#[trigger] records[i])@,
                field,
                query,
                exclude,
                metric,
            ) matches Some(s) ==> c.contains(
                Ranked { score: s, lid: records[i].lid, item: records[i] },
            )) by {
                if let Some(s) = self.score_of(records[i]@, field, query, exclude, metric) {
                    let x = Ranked { score: s, lid: records[i].lid, item: records[i] };
                    if i < d.len() {
                        assert(d[i] == records[i]);
                        assert(q.contains(x));
                        let j = choose|j: int| 0 <= j < q.len() && q[j] == x;
                        assert(c[j] == x);
                    } else {
                        assert(c[c.len() - 1] == x);
                    }
                }
            }
        }
    }

    /// The record competes in a search for the vectors that are like `query`: it has a
    /// vector in the field, and `s` is how similar that is.
    pub open spec fn competes(
        &self,
        rec: RecordV,
        field: Seq<char>,
        metric: SimilarityMetric,
        query: Seq<u32>,
        s: u64,
    ) -> bool {
        rec.fields.contains_key(field) && (self.vector_of(rec.fields[field]) matches Some(x)
            && self.similarity_of(metric, query, x) == Some(s))
    }

    /// What holds of an answer to a search among those of the records that `open`
    /// admits: every record in it is an admitted one that competes; they come by
    /// similarity, the greatest first; no admitted record that was left out is more
    /// similar than one of them; none is left out while fewer than `k` are answered;
    /// and no record is answered twice.
    pub open spec fn is_nearest_of(
        &self,
        records: Seq<Record>,
        open: spec_fn(RecordV) -> bool,
        field: Seq<char>,
        metric: SimilarityMetric,
        query: Seq<u32>,
        k: nat,
        answer: Seq<Record>,
    ) -> bool {
        &&& answer.len() <= k
        &&& forall|j: int|
            0 <= j < answer.len() ==> records.contains(#[trigger] answer[j]) && open(answer[j]@)
                && exists|s: u64| #[trigger] self.competes(answer[j]@, field, metric, query, s)
        &&& forall|i: int, j: int, s: u64, t: u64|
            0 <= i < j < answer.len() && #[trigger] self.competes(
                answer[i]@,
                field,
                metric,
                query,
                s,
            ) && #[trigger] self.competes(answer[j]@, field, metric, query, t) ==> !more_similar(
                t,
                answer[j].lid,
                s,
                answer[i].lid,
            )
        &&& forall|i: int, j: int, s: u64, t: u64|
            0 <= i < records.len() && open(records[i]@) && !answer.contains(records[i]) && 0 <= j
                < answer.len() && #[trigger] self.competes(records[i]@, field, metric, query, s)
                && #[trigger] self.competes(answer[j]@, field, metric, query, t) ==> !more_similar(
                s,
                records[i].lid,
                t,
                answer[j].lid,
            )
        &&& answer.len() < k ==> forall|i: int, s: u64|
            0 <= i < records.len() && open(records[i]@) && #[trigger] self.competes(
                records[i]@,
                field,
                metric,
                query,
                s,
            ) ==> answer.contains(records[i])
        &&& distinct_lids(records) ==> distinct_lids(answer)
    }

    proof fn lemma_nearest_of(
        &self,
        records: Seq<Record>,
        open: spec_fn(RecordV) -> bool,
        exclude: Option<Seq<char>>,
        field: Seq<char>,
        metric: SimilarityMetric,
        query: Seq<u32>,
        k: nat,
    )
        requires
            forall|r: RecordV| #[trigger]
                open(r) == !(exclude matches Some(id) && exists|n: Seq<char>| #[trigger]
                    r.fields.contains_key(n) && r.fields[n] == ValueV::Text(id)),
        ensures
            self.is_nearest_of(
                records,
                open,
                field,
                metric,
                query,
                k,
                items_of(top_k::best(self.candidates(records, field, query, exclude, metric), k)),
            ),
    {
        let c = self.candidates(records, field, query, exclude, metric);
        let b = top_k::best(c, k);
        let answer = items_of(b);
        self.lemma_candidates_are_scored(records, field, query, exclude, metric);
        top_k::law_best_is_best(c, k);
        // Who competes and is admitted has a score, and only those have one.
        assert forall|r: RecordV, s: u64| #[trigger]
            self.competes(r, field, metric, query, s) && open(r) implies self.score_of(
            r,
            field,
            query,
            exclude,
            metric,
        ) == Some(s) by {
            if let Some(id) = exclude {
                if holds_text(r.fields, id) {
                    let n = choose|n: Seq<char>| #[trigger]
                        r.fields.contains_key(n) && r.fields[n] == ValueV::Text(id);
                    assert(r.fields.contains_key(n));
                }
            }
        }
        assert forall|r: RecordV|
            (#[trigger] self.score_of(r, field, query, exclude, metric)) is Some implies open(r)
            && self.competes(
            r,
            field,
            metric,
            query,
            self.score_of(r, field, query, exclude, metric)->Some_0,
        ) by {
            if let Some(id) = exclude {
                if exists|n: Seq<char>| #[trigger]
                    r.fields.contains_key(n) && r.fields[n] == ValueV::Text(id) {
                    assert(holds_text(r.fields, id));
                }
            }
        }
        assert forall|j: int| 0 <= j < answer.len() implies records.contains(#[trigger] answer[j])
            && open(answer[j]@) && self.competes(
            answer[j]@,
            field,
            metric,
            query,
            b[j].score,
        ) by {
            assert(c.contains(b[j]));
            let i = choose|i: int| 0 <= i < c.len() && c[i] == b[j];
            assert(self.score_of(c[i].item@, field, query, exclude, metric) == Some(c[i].score));
        }
        assert forall|j: int| 0 <= j < b.len() implies (#[trigger] b[j]).lid == answer[j].lid by {
            assert(c.contains(b[j]));
            let i = choose|i: int| 0 <= i < c.len() && c[i] == b[j];
            assert(c[i].lid == c[i].item.lid);
        }
        assert forall|i: int, j: int, s: u64, t: u64|
            0 <= i < j < answer.len() && #[trigger] self.competes(
                answer[i]@,
                field,
                metric,
                query,
                s,
            ) && #[trigger] self.competes(answer[j]@, field, metric, query, t) implies !more_similar(
            t,
            answer[j].lid,
            s,
            answer[i].lid,
        ) by {
            assert(self.competes(answer[i]@, field, metric, query, b[i].score));
            assert(self.competes(answer[j]@, field, metric, query, b[j].score));
            assert(!top_k::ahead(b[j], b[i]));
            lemma_more_similar_is_ahead(b[j], b[i]);
        }
        assert forall|i: int, s: u64|
            0 <= i < records.len() && open(records[i]@) && #[trigger] self.competes(
                records[i]@,
                field,
                metric,
                query,
                s,
            ) implies ({
            let x = Ranked { score: s, lid: records[i].lid, item: records[i] };
            c.contains(x) && (b.contains(x) ==> answer.contains(records[i]))
        }) by {
            let x = Ranked { score: s, lid: records[i].lid, item: records[i] };
            assert(self.score_of(records[i]@, field, query, exclude, metric) == Some(s));
            if b.contains(x) {
                let j = choose|j: int| 0 <= j < b.len() && b[j] == x;
                assert(answer[j] == records[i]);
            }
        }
        assert forall|i: int, j: int, s: u64, t: u64|
            0 <= i < records.len() && open(records[i]@) && !answer.contains(records[i]) && 0 <= j
                < answer.len() && #[trigger] self.competes(records[i]@, field, metric, query, s)
                && #[trigger] self.competes(answer[j]@, field, metric, query, t) implies
            !more_similar(s, records[i].lid, t, answer[j].lid) by {
            let x = Ranked { score: s, lid: records[i].lid, item: records[i] };
            assert(c.contains(x) && !b.contains(x));
            let w = choose|w: int| 0 <= w < c.len() && c[w] == x;
            assert(self.competes(answer[j]@, field, metric, query, b[j].score));
            assert(!top_k::ahead(c[w], b[j]));
            lemma_more_similar_is_ahead(x, b[j]);
        }
        if answer.len() < k {
            assert forall|i: int, s: u64|
                0 <= i < records.len() && open(records[i]@) && #[trigger] self.competes(
                    records[i]@,
                    field,
                    metric,
                    query,
                    s,
                ) implies answer.contains(records[i]) by {
                let x = Ranked { score: s, lid: records[i].lid, item: records[i] };
                assert(c.contains(x));
                assert(b == top_k::ranked(c));
                top_k::lemma_ranked_keeps(c, x);
            }
        }
        if distinct_lids(records) {
            self.lemma_candidates_distinct(records, field, query, exclude, metric);
            top_k::lemma_ranked_distinct(c);
            assert forall|i: int, j: int| 0 <= i < j < answer.len() implies (
            #[trigger] answer[i]).lid != (#[trigger] answer[j]).lid by {
                assert(b[i] == top_k::ranked(c)[i] && b[j] == top_k::ranked(c)[j]);
                assert(b[i].lid == answer[i].lid && b[j].lid == answer[j].lid);
            }
        }
    }

    proof fn lemma_candidates_distinct(
        &self,
        records: Seq<Record>,
        field: Seq<char>,
        query: Seq<u32>,
        exclude: Option<Seq<char>>,
        metric: SimilarityMetric,
    )
        requires
            distinct_lids(records),
        ensures
            top_k::lids_distinct(self.candidates(records, field, query, exclude, metric)),
        decreases records.len(),
    {
        if records.len() > 0 {
            let d = records.drop_last();
            let last = records[records.len() - 1];
            assert forall|i: int, j: int| 0 <= i < j < d.len() implies (#[trigger] d[i]).lid != (
            #[trigger] d[j]).lid by {
                assert(records[i] == d[i] && records[j] == d[j]);
            }
            self.lemma_candidates_distinct(d, field, query, exclude, metric);
            self.lemma_candidates_are_scored(d, field, query, exclude, metric);
            let q = self.candidates(d, field, query, exclude, metric);
            let c = self.candidates(records, field, query, exclude, metric);
            assert forall|i: int, j: int| 0 <= i < j < c.len() implies (#[trigger] c[i]).lid != (
            #[trigger] c[j]).lid by {
                assert(c[i] == q[i]);
                if j < q.len() {
                    assert(c[j] == q[j]);
                } else {
                    let w = choose|w: int| 0 <= w < d.len() && d[w] == q[i].item;
                    assert(records[w].lid != last.lid);
                }
            }
        }
    }

    /// A search by a reference is answered only where exactly one of the records has
    /// the text in a field, and that one has a vector. It is answered with the records
    /// most similar to that one: itself, and whatever else has the text, is never
    /// among them.
    pub proof fn law_more_like_this(
        &self,
        records: Seq<Record>,
        stmt: NearestStmt,
        id: String,
        answer: Vec<Record>,
    )
        requires
            stmt.query == NearestQuery::Ref(id),
            self.is_nearest(records, stmt, Ok(answer)),
        ensures
            self.metric_of(stmt.metric@) is Some,
            exists|i: int|
                0 <= i < records.len() && has_text((#[trigger] records[i])@, id@) && (forall|j: int|
                    0 <= j < records.len() && has_text((#[trigger] records[j])@, id@) ==> j == i)
                    && records[i]@.fields.contains_key(stmt.field@) && (self.vector_of(
                    records[i]@.fields[stmt.field@],
                ) matches Some(query) && self.is_nearest_of(
                    records,
                    |r: RecordV| !has_text(r, id@),
                    stmt.field@,
                    self.metric_of(stmt.metric@)->Some_0,
                    query,
                    stmt.k as nat,
                    answer@,
                )),
    {
        let metric = self.metric_of(stmt.metric@)->Some_0;
        let q = choose|q: Result<Vec<u32>, XyzError>| #[trigger]
            self.is_query(records, stmt, q) && match q {
                Err(e) => Ok::<Vec<Record>, XyzError>(answer) == Err::<Vec<Record>, XyzError>(e),
                Ok(query) => answer@ == items_of(
                    top_k::best(
                        self.candidates(
                            records,
                            stmt.field@,
                            query@,
                            Self::excluded(stmt.query),
                            metric,
                        ),
                        stmt.k as nat,
                    ),
                ),
            };
        assert(self.is_query(records, stmt, q));
        assert(self.is_ref(records, stmt.field@, id@, q));
        let i = choose|i: int| #[trigger] refers(records, id@, i);
        assert(refers(records, id@, i));
        let query = q->Ok_0@;
        let open = |r: RecordV| !has_text(r, id@);
        self.lemma_nearest_of(
            records,
            open,
            Some(id@),
            stmt.field@,
            metric,
            query,
            stmt.k as nat,
        );
        assert(has_text(records[i]@, id@));
        assert forall|j: int| 0 <= j < records.len() && has_text((#[trigger] records[j])@, id@) implies j
            == i by {
            assert(refers(records, id@, j));
        }
    }

    /// A search for a vector is answered with the records whose vectors are most
    /// similar to it.
    pub proof fn law_nearest_to_vector(
        &self,
        records: Seq<Record>,
        stmt: NearestStmt,
        lit: Literal,
        answer: Vec<Record>,
    )
        requires
            stmt.query == NearestQuery::Vector(lit),
            self.is_nearest(records, stmt, Ok(answer)),
        ensures
            self.metric_of(stmt.metric@) is Some,
            self.vector_of(filter::literal_value(lit@)) matches Some(query) && self.is_nearest_of(
                records,
                |r: RecordV| true,
                stmt.field@,
                self.metric_of(stmt.metric@)->Some_0,
                query,
                stmt.k as nat,
                answer@,
            ),
    {
        let metric = self.metric_of(stmt.metric@)->Some_0;
        let q = choose|q: Result<Vec<u32>, XyzError>| #[trigger]
            self.is_query(records, stmt, q) && match q {
                Err(e) => Ok::<Vec<Record>, XyzError>(answer) == Err::<Vec<Record>, XyzError>(e),
                Ok(query) => answer@ == items_of(
                    top_k::best(
                        self.candidates(
                            records,
                            stmt.field@,
                            query@,
                            Self::excluded(stmt.query),
                            metric,
                        ),
                        stmt.k as nat,
                    ),
                ),
            };
        assert(self.is_query(records, stmt, q));
        let query = q->Ok_0@;
        self.lemma_nearest_of(
            records,
            |r: RecordV| true,
            None,
            stmt.field@,
            metric,
            query,
            stmt.k as nat,
        );
    }

    /// A search is refused where its metric is unknown, where its query is no vector, and
    /// where its reference is held by no record, by two, or by one without a vector; and
    /// for no other reason.
    pub proof fn law_search_is_refused_for_a_reason(
        &self,
        records: Seq<Record>,
        stmt: NearestStmt,
        r: Result<Vec<Record>, XyzError>,
    )
        requires
            self.is_nearest(records, stmt, r),
        ensures
            r is Ok <==> self.metric_of(stmt.metric@) is Some && match stmt.query {
                NearestQuery::Vector(lit) => self.vector_of(filter::literal_value(lit@)) is Some,
                NearestQuery::Param(_) => false,
                NearestQuery::Ref(id) => exists|i: int|
                    0 <= i < records.len() && has_text((#[trigger] records[i])@, id@) && (forall|
                        j: int,
                    |
                        0 <= j < records.len() && has_text((#[trigger] records[j])@, id@) ==> j == i)
                        && records[i]@.fields.contains_key(stmt.field@) && self.vector_of(
                        records[i]@.fields[stmt.field@],
                    ) is Some,
            },
    {
        if let Some(metric) = self.metric_of(stmt.metric@) {
            let q = choose|q: Result<Vec<u32>, XyzError>| #[trigger]
                self.is_query(records, stmt, q) && match q {
                    Err(e) => r == Err::<Vec<Record>, XyzError>(e),
                    Ok(query) => r matches Ok(v) && v@ == items_of(
                        top_k::best(
                            self.candidates(
                                records,
                                stmt.field@,
                                query@,
                                Self::excluded(stmt.query),
                                metric,
                            ),
                            stmt.k as nat,
                        ),
                    ),
                };
            assert(self.is_query(records, stmt, q));
            if let NearestQuery::Ref(id) = stmt.query {
                if exists|i: int| #[trigger] refers(records, id@, i) {
                    let i = choose|i: int| #[trigger] refers(records, id@, i);
                    assert(has_text(records[i]@, id@));
                    if !ambiguous(records, id@) {
                        assert forall|j: int|
                            0 <= j < records.len() && has_text(
                                (#[trigger] records[j])@,
                                id@,
                            ) implies j == i by {
                            assert(refers(records, id@, j));
                        }
                    } else {
                        let (a, b) = choose|a: int, b: int|
                            a < b && #[trigger] refers(records, id@, a) && #[trigger] refers(
                                records,
                                id@,
                                b,
                            );
                        assert(has_text(records[a]@, id@) && has_text(records[b]@, id@));
                    }
                }
                assert forall|i: int| 0 <= i < records.len() && has_text(
                    (#[trigger] records[i])@,
                    id@,
                ) implies refers(records, id@, i) by {}
            }
        }
    }
}

/// Some field of the record is the text.
pub open spec fn has_text(r: RecordV, id: Seq<char>) -> bool {
    exists|n: Seq<char>| #[trigger]
        r.fields.contains_key(n) && r.fields[n] == ValueV::Text(id)
}

/// No two of the records have the same identity.
pub open spec fn distinct_lids(records: Seq<Record>) -> bool {
    forall|i: int, j: int|
        0 <= i < j < records.len() ==> (#[trigger] records[i]).lid != (#[trigger] records[j]).lid
}

proof fn lemma_more_similar_is_ahead<P, Q>(a: Ranked<P>, b: Ranked<Q>)
    ensures
        more_similar(a.score, a.lid, b.score, b.lid) ==> top_k::worth(a.score) > top_k::worth(
            b.score,
        ) || (top_k::worth(a.score) == top_k::worth(b.score) && a.lid < b.lid),
{
}

/// The candidates without their similarities.
pub open spec fn items_of<P>(s: Seq<Ranked<P>>) -> Seq<P> {
    s.map_values(|x: Ranked<P>| x.item)
}

/// The candidates without their similarities.
pub fn take_items<P>(v: Vec<Ranked<P>>) -> (r: Vec<P>)
    ensures
        r@ == items_of(v@),
{
    let ghost all = v@;
    let mut todo = crate::sort::reversed(v);
    let mut r: Vec<P> = Vec::new();
    while todo.len() > 0
        invariant
            r@.len() + todo@.len() == all.len(),
            forall|j: int|
                0 <= j < todo@.len() ==> #[trigger] todo@[j] == all[all.len() - 1 - j],
            forall|j: int| 0 <= j < r@.len() ==> #[trigger] r@[j] == all[j].item,
        decreases todo@.len(),
    {
        if let Some(x) = todo.pop() {
            r.push(x.item);
        }
    }
    assert(r@ =~= items_of(all));
    r
}

/// How many candidates are scored between looks at the clock.
pub const BUDGET_CHECK_STRIDE: usize = 1024;

/// The clock is looked at after so many candidates, and the time is up.
pub open spec fn out_of_time(scanned: int, budget_ms: u64, elapsed_ms: u64) -> bool {
    budget_ms > 0 && scanned % (BUDGET_CHECK_STRIDE as int) == 0 && elapsed_ms >= budget_ms
}

/// Whether the time is up.
pub fn is_out_of_time(scanned: usize, budget_ms: u64, elapsed_ms: u64) -> (r: bool)
    ensures
        r == out_of_time(scanned as int, budget_ms, elapsed_ms),
        r == (budget_ms > 0 && scanned % 1024 == 0 && elapsed_ms >= budget_ms),
{
    budget_ms > 0 && scanned % BUDGET_CHECK_STRIDE == 0 && elapsed_ms >= budget_ms
}

/// Why a search over the vectors of one bucket cannot answer the query, or what
/// it needs.
pub struct FusedPlan {
    pub query: Vec<u32>,
    pub metric: SimilarityMetric,
    pub k: usize,
    /// Whether some predicate is not about a gravity field, so that candidates
    /// have to be checked after they are ranked.
    pub has_residual: bool,
}

/// Some predicate is about another field than those.
pub open spec fn has_other_field(
    filters: Seq<(Seq<char>, FilterOp, ValueV)>,
    names: Seq<Seq<char>>,
) -> bool {
    exists|i: int| 0 <= i < filters.len() && !names.contains((#[trigger] filters[i]).0)
}

/// Whether some predicate is about another field than those.
pub fn any_other_field(filters: &[(String, FilterOp, Value)], names: &[String]) -> (r: bool)
    ensures
        r == has_other_field(record::predicates_view(filters@), text::names(names@)),
{
    let ghost fv = record::predicates_view(filters@);
    let mut i: usize = 0;
    while i < filters.len()
        invariant
            i <= filters@.len(),
            fv == record::predicates_view(filters@),
            forall|j: int|
                0 <= j < i ==> text::names(names@).contains((#[trigger] fv[j]).0),
        decreases filters@.len() - i,
    {
        assert(fv[i as int].0 == filters@[i as int].0@);
        if !text::names_contain(names, filters[i].0.as_str()) {
            return true;
        }
        i = i + 1;
    }
    false
}

/// What the scan before a search selects.
pub struct ScanFacts<'a> {
    /// The lobe's declared vector field.
    pub vector_field: Option<&'a str>,
    /// Whether the scan orders its records or resumes an earlier one.
    pub ordered: bool,
    /// Whether the scan itself limits how many records it gives.
    pub limited: bool,
    /// Whether the scan has a predicate at all.
    pub filtered: bool,
    /// Its predicates, where it is a conjunction.
    pub filters: &'a [(String, FilterOp, Value)],
    /// The fields of the lobe's gravity specification, if the predicates pin its
    /// hash.
    pub gravity_fields: Option<&'a [String]>,
}

impl<
    M: Fn(&str) -> Option<SimilarityMetric>,
    A: Fn(&Value) -> Option<Vec<u32>>,
    S: Fn(SimilarityMetric, &[u32], &[u32]) -> Option<u64>,
> DistanceOps<M, A, S> {
    /// A search over the vectors of one bucket can answer the query: the lobe
    /// keeps the searched field as its vector, the query is a vector by a known
    /// metric, and the scan neither orders nor resumes nor limits and selects one
    /// bucket by a conjunction.
    pub open spec fn fuses(&self, facts: ScanFacts, stmt: NearestStmt) -> bool {
        &&& facts.vector_field matches Some(f) && f@ == stmt.field@
        &&& stmt.query matches NearestQuery::Vector(lit) && self.vector_of(
            filter::literal_value(lit@),
        ) is Some
        &&& !facts.ordered
        &&& !facts.limited
        &&& self.metric_of(stmt.metric@) is Some
        &&& facts.gravity_fields is Some
        &&& !(facts.filtered && facts.filters@.len() == 0)
    }

    /// What a search over the vectors of one bucket needs.
    pub open spec fn is_fused_plan(
        &self,
        facts: ScanFacts,
        stmt: NearestStmt,
        r: Option<FusedPlan>,
    ) -> bool {
        if self.fuses(facts, stmt) {
            r matches Some(p) && Some(p.query@) == self.vector_of(
                filter::literal_value(stmt.query->Vector_0@),
            ) && Some(p.metric) == self.metric_of(stmt.metric@) && p.k == stmt.k && p.has_residual
                == has_other_field(
                record::predicates_view(facts.filters@),
                text::names(facts.gravity_fields->Some_0@),
            )
        } else {
            r is None
        }
    }

    /// Decides whether a search over the vectors of one bucket can answer the
    /// query.
    pub fn plan_fused(&self, facts: &ScanFacts, stmt: &NearestStmt) -> (r: Option<FusedPlan>)
        requires
            self.sound(),
            stmt.query matches NearestQuery::Vector(lit) ==> ast::bound(lit@),
        ensures
            self.is_fused_plan(*facts, *stmt, r),
    {
        match facts.vector_field {
            Some(f) => {
                if !bytes::str_equal(f, stmt.field.as_str()) {
                    return None;
                }
            },
            None => {
                return None;
            },
        }
        let query = match &stmt.query {
            NearestQuery::Vector(lit) => {
                let v = filter::literal_to_value(lit);
                match self.as_vector(&v) {
                    Some(x) => x,
                    None => {
                        return None;
                    },
                }
            },
            _ => {
                return None;
            },
        };
        if facts.ordered || facts.limited {
            return None;
        }
        let metric = match self.parse_metric(stmt.metric.as_str()) {
            Some(m) => m,
            None => {
                return None;
            },
        };
        let names = match facts.gravity_fields {
            Some(g) => g,
            None => {
                return None;
            },
        };
        if facts.filtered && facts.filters.len() == 0 {
            return None;
        }
        Some(
            FusedPlan {
                query,
                metric,
                k: stmt.k,
                has_residual: any_other_field(facts.filters, names),
            },
        )
    }
}

/// What is kept of a candidate until its record is read: its spatial key, and
/// its column where no other predicate remains.
pub struct ColumnCandidate {
    pub key: Vec<u8>,
    pub column: Option<Vec<u8>>,
}

/// A vector as a column, or the head of a record's bytes, holds it.
pub struct VectorEntry {
    pub lid: u128,
    /// Whether it is the vector of the searched field.
    pub is_searched: bool,
    pub vector: Vec<u32>,
}

/// Fails where the time of a search is up.
pub fn check_time(scanned: usize, budget_ms: u64, elapsed_ms: u64) -> (r: Result<(), XyzError>)
    ensures
        if out_of_time(scanned as int, budget_ms, elapsed_ms) {
            r == Err::<(), XyzError>(
                XyzError::NearestBudgetExceeded { scanned: scanned as u64, budget_ms },
            )
        } else {
            r is Ok
        },
{
    if is_out_of_time(scanned, budget_ms, elapsed_ms) {
        return Err(XyzError::NearestBudgetExceeded { scanned: scanned as u64, budget_ms });
    }
    Ok(())
}

/// What is done once the columns of a bucket are scored.
#[derive(Clone, Copy, Debug, PartialEq, Eq, Structural)]
pub enum AfterColumns {
    /// The records of the candidates are read, best first.
    Hydrate,
    /// The bucket's records are scored in place of its columns.
    ScoreRecords,
    /// The search is made among the records that the scan selects.
    ReadWhole,
}

/// The scoring of a bucket's vectors.
pub struct FusedScan {
    has_residual: bool,
    budget_ms: u64,
    scanned: usize,
    columns: bool,
    top: TopK<ColumnCandidate>,
}

impl FusedScan {
    /// Candidates have to be checked after they are ranked, so all are kept.
    pub closed spec fn checks(&self) -> bool {
        self.has_residual
    }

    /// The time that the search may take, if it is limited.
    pub closed spec fn budget(&self) -> u64 {
        self.budget_ms
    }

    /// How many candidates were looked at.
    pub closed spec fn looked_at(&self) -> usize {
        self.scanned
    }

    /// Some vector was found in a column.
    pub closed spec fn has_columns(&self) -> bool {
        self.columns
    }

    /// How many candidates are kept.
    pub closed spec fn wanted(&self) -> usize {
        self.top.wanted()
    }

    /// The candidates so far.
    pub closed spec fn seen(&self) -> Seq<Ranked<ColumnCandidate>> {
        self.top.seen()
    }

    /// Begins to score: `k` candidates are kept, or all where they have to be
    /// checked later.
    pub fn new(plan: &FusedPlan, budget_ms: u64) -> (r: Self)
        ensures
            r.checks() == plan.has_residual,
            r.budget() == budget_ms,
            r.looked_at() == 0,
            !r.has_columns(),
            r.wanted() == kept_for(*plan),
            r.seen() == Seq::<Ranked<ColumnCandidate>>::empty(),
    {
        let limit: usize = if plan.has_residual {
            usize::MAX
        } else {
            plan.k
        };
        FusedScan {
            has_residual: plan.has_residual,
            budget_ms,
            scanned: 0,
            columns: false,
            top: TopK::new(limit),
        }
    }

    /// Counts a candidate. Fails where the time is up.
    pub fn look(&mut self, elapsed_ms: u64) -> (r: Result<(), XyzError>)
        requires
            old(self).looked_at() < usize::MAX,
        ensures
            final(self).checks() == old(self).checks(),
            final(self).budget() == old(self).budget(),
            final(self).looked_at() == old(self).looked_at() + 1,
            final(self).has_columns() == old(self).has_columns(),
            final(self).wanted() == old(self).wanted(),
            final(self).seen() == old(self).seen(),
            if out_of_time(old(self).looked_at() + 1, old(self).budget(), elapsed_ms) {
                r matches Err(XyzError::NearestBudgetExceeded { scanned, budget_ms }) && scanned
                    == old(self).looked_at() + 1 && budget_ms == old(self).budget()
            } else {
                r is Ok
            },
    {
        self.scanned = self.scanned + 1;
        check_time(self.scanned, self.budget_ms, elapsed_ms)
    }

    /// The similarity that a candidate must exceed, where scoring it can stop
    /// early: not while candidates have to be checked later, nor before enough
    /// are kept.
    pub fn threshold(&self) -> (r: Option<u64>)
        ensures
            r == ({
                let b = top_k::best(self.seen(), self.wanted() as nat);
                if !self.checks() && b.len() == self.wanted() && b.len() > 0 {
                    Some(b.last().score)
                } else {
                    None
                }
            }),
    {
        if self.has_residual {
            None
        } else {
            self.top.threshold()
        }
    }

    /// Offers a scored candidate. Its column is kept only where the candidate
    /// does not have to be checked later.
    pub fn offer(&mut self, score: u64, lid: u128, key: Vec<u8>, column: Option<Vec<u8>>)
        ensures
            final(self).checks() == old(self).checks(),
            final(self).budget() == old(self).budget(),
            final(self).looked_at() == old(self).looked_at(),
            final(self).has_columns() == old(self).has_columns(),
            final(self).wanted() == old(self).wanted(),
            final(self).seen() == old(self).seen().push(
                (Ranked {
                    score,
                    lid,
                    item: ColumnCandidate {
                        key,
                        column: if old(self).checks() {
                            None
                        } else {
                            column
                        },
                    },
                }),
            ),
    {
        let kept = if self.has_residual {
            None
        } else {
            column
        };
        self.top.offer(score, lid, ColumnCandidate { key, column: kept });
    }

    /// What is done once the columns of the bucket are scored. Where there are
    /// none, the records hold their vectors themselves; where candidates have to
    /// be checked as well, the records are read whole.
    pub fn after_columns(&self) -> (r: AfterColumns)
        ensures
            r == if self.has_columns() {
                AfterColumns::Hydrate
            } else if self.checks() {
                AfterColumns::ReadWhole
            } else {
                AfterColumns::ScoreRecords
            },
    {
        if self.columns {
            AfterColumns::Hydrate
        } else if self.has_residual {
            AfterColumns::ReadWhole
        } else {
            AfterColumns::ScoreRecords
        }
    }

    /// Goes on to read the records of the candidates, best first.
    pub fn hydrate(self, k: usize) -> (r: Hydration)
        ensures
            r.ranking() == top_k::best(self.seen(), self.wanted() as nat),
            r.checks() == self.checks(),
            r.budget() == self.budget(),
            r.looked_at() == self.looked_at(),
            r.at() == 0,
            r.examined() == 0,
            r.cut() == false,
            r.wanted() == k,
            r.found() == Seq::<Ranked<Record>>::empty(),
    {
        Hydration {
            has_residual: self.has_residual,
            budget_ms: self.budget_ms,
            scanned: self.scanned,
            cands: self.top.into_best(),
            pos: 0,
            read: 0,
            truncated: false,
            top: TopK::new(k),
        }
    }
}

/// A candidate as it is kept.
pub open spec fn kept(
    score: u64,
    lid: u128,
    key: Vec<u8>,
    column: Option<Vec<u8>>,
) -> Ranked<ColumnCandidate> {
    Ranked { score, lid, item: ColumnCandidate { key, column } }
}

/// The scoring goes on as it was begun, with other candidates at most.
pub open spec fn goes_on(before: FusedScan, after: FusedScan) -> bool {
    &&& after.checks() == before.checks()
    &&& after.budget() == before.budget()
    &&& after.looked_at() == before.looked_at()
    &&& after.wanted() == before.wanted()
}

impl<
    M: Fn(&str) -> Option<SimilarityMetric>,
    A: Fn(&Value) -> Option<Vec<u32>>,
    S: Fn(SimilarityMetric, &[u32], &[u32]) -> Option<u64>,
> DistanceOps<M, A, S> {
    /// The similarity by which a stored vector competes: it is of the searched
    /// field, and the similarity is defined.
    pub open spec fn entry_score(&self, plan: FusedPlan, e: VectorEntry) -> Option<u64> {
        if e.is_searched {
            self.similarity_of(plan.metric, plan.query@, e.vector@)
        } else {
            None
        }
    }

    /// Scores a column of the bucket. One that holds no vector, or that of another
    /// field, does not compete.
    pub fn offer_column(
        &self,
        plan: &FusedPlan,
        scan: &mut FusedScan,
        entry: Option<VectorEntry>,
        key: Vec<u8>,
        column: Vec<u8>,
    )
        requires
            self.sound(),
        ensures
            goes_on(*old(scan), *final(scan)),
            final(scan).has_columns() == (old(scan).has_columns() || entry is Some),
            final(scan).seen() == match entry {
                Some(e) => match self.entry_score(*plan, e) {
                    Some(score) => old(scan).seen().push(
                        kept(
                            score,
                            e.lid,
                            key,
                            if old(scan).checks() {
                                None
                            } else {
                                Some(column)
                            },
                        ),
                    ),
                    None => old(scan).seen(),
                },
                None => old(scan).seen(),
            },
    {
        if let Some(e) = entry {
            scan.columns = true;
            if e.is_searched {
                if let Some(score) = self.measure(
                    plan.metric,
                    plan.query.as_slice(),
                    e.vector.as_slice(),
                ) {
                    scan.offer(score, e.lid, key, Some(column));
                }
            }
        }
    }

    /// Scores the vector at the head of a record's bytes. Gives the key back where
    /// there is none of the searched field, so that the record is to be read.
    pub fn offer_head(
        &self,
        plan: &FusedPlan,
        scan: &mut FusedScan,
        entry: Option<VectorEntry>,
        key: Vec<u8>,
    ) -> (r: Option<Vec<u8>>)
        requires
            self.sound(),
        ensures
            goes_on(*old(scan), *final(scan)),
            final(scan).has_columns() == old(scan).has_columns(),
            match entry {
                Some(e) if e.is_searched => {
                    &&& r is None
                    &&& final(scan).seen() == match self.entry_score(*plan, e) {
                        Some(score) => old(scan).seen().push(kept(score, e.lid, key, None)),
                        None => old(scan).seen(),
                    }
                },
                _ => r == Some(key) && final(scan).seen() == old(scan).seen(),
            },
    {
        if let Some(e) = entry {
            if e.is_searched {
                if let Some(score) = self.measure(
                    plan.metric,
                    plan.query.as_slice(),
                    e.vector.as_slice(),
                ) {
                    scan.offer(score, e.lid, key, None);
                }
                return None;
            }
        }
        Some(key)
    }

    /// Scores a record of the bucket that holds its vector in a field. Gives up
    /// where the record does not pass: the bucket then holds records that only
    /// share the hash.
    pub fn offer_record(
        &self,
        plan: &FusedPlan,
        scan: &mut FusedScan,
        field: &str,
        rec: &Record,
        passes: bool,
        key: Vec<u8>,
    ) -> (go_on: bool)
        requires
            self.sound(),
        ensures
            go_on == passes,
            goes_on(*old(scan), *final(scan)),
            final(scan).has_columns() == old(scan).has_columns(),
            final(scan).seen() == match self.score_of(
                rec@,
                field@,
                plan.query@,
                None,
                plan.metric,
            ) {
                Some(score) if passes => old(scan).seen().push(kept(score, rec.lid, key, None)),
                _ => old(scan).seen(),
            },
    {
        if passes {
            if let Some(v) = self.field_embedding(&rec.fields, field) {
                if let Some(score) = self.measure(
                    plan.metric,
                    plan.query.as_slice(),
                    v.as_slice(),
                ) {
                    scan.offer(score, rec.lid, key, None);
                }
            }
        }
        passes
    }

    /// The candidates among the columns of a bucket, where `rest` is what is kept
    /// of each.
    pub open spec fn column_candidates(
        &self,
        plan: FusedPlan,
        entries: Seq<VectorEntry>,
        rest: Seq<ColumnCandidate>,
    ) -> Seq<Ranked<ColumnCandidate>>
        decreases entries.len(),
    {
        if entries.len() == 0 {
            Seq::empty()
        } else {
            let n = entries.len() - 1;
            let before = self.column_candidates(plan, entries.drop_last(), rest);
            match self.entry_score(plan, entries[n]) {
                Some(score) => before.push(
                    Ranked { score, lid: entries[n].lid, item: rest[n] },
                ),
                None => before,
            }
        }
    }

    /// A search over the columns of a bucket finds what a search among its records
    /// finds: where the columns hold the embeddings of the records, the best `k` of
    /// both have the same similarities and the same identities, in the same order.
    pub proof fn law_columns_rank_as_records(
        &self,
        plan: FusedPlan,
        field: Seq<char>,
        entries: Seq<VectorEntry>,
        rest: Seq<ColumnCandidate>,
        records: Seq<Record>,
        k: nat,
    )
        requires
            entries.len() == records.len(),
            forall|i: int|
                #![trigger entries[i]]
                #![trigger records[i]]
                0 <= i < entries.len() ==> entries[i].is_searched && entries[i].lid
                    == records[i].lid && self.embedding(records[i]@.fields, field) == Some(
                    entries[i].vector@,
                ),
        ensures
            top_k::aligned(
                top_k::best(self.column_candidates(plan, entries, rest), k),
                top_k::best(
                    self.candidates(records, field, plan.query@, None, plan.metric),
                    k,
                ),
            ),
    {
        self.law_columns_pair_with_records(
            plan,
            field,
            entries,
            rest,
            records,
            |c: ColumnCandidate, r: Record| true,
        );
        top_k::law_items_do_not_rank(
            self.column_candidates(plan, entries, rest),
            self.candidates(records, field, plan.query@, None, plan.metric),
            k,
        );
    }

    /// One more column of a bucket competes by its similarity, or does not compete.
    pub proof fn law_column_is_next_candidate(
        &self,
        plan: FusedPlan,
        entries: Seq<VectorEntry>,
        rest: Seq<ColumnCandidate>,
        e: VectorEntry,
        c: ColumnCandidate,
    )
        requires
            entries.len() == rest.len(),
        ensures
            self.column_candidates(plan, entries.push(e), rest.push(c)) == match self.entry_score(
                plan,
                e,
            ) {
                Some(score) => self.column_candidates(plan, entries, rest).push(
                    Ranked { score, lid: e.lid, item: c },
                ),
                None => self.column_candidates(plan, entries, rest),
            },
    {
        assert(entries.push(e).drop_last() =~= entries);
        self.lemma_rest_beyond(plan, entries, rest, c);
    }

    proof fn lemma_rest_beyond(
        &self,
        plan: FusedPlan,
        entries: Seq<VectorEntry>,
        rest: Seq<ColumnCandidate>,
        c: ColumnCandidate,
    )
        requires
            entries.len() <= rest.len(),
        ensures
            self.column_candidates(plan, entries, rest.push(c)) == self.column_candidates(
                plan,
                entries,
                rest,
            ),
        decreases entries.len(),
    {
        if entries.len() > 0 {
            self.lemma_rest_beyond(plan, entries.drop_last(), rest, c);
        }
    }

    /// Where the columns hold the embeddings of the records and what is kept of a
    /// column is related to its record, the candidates of both are paired.
    pub proof fn law_columns_pair_with_records(
        &self,
        plan: FusedPlan,
        field: Seq<char>,
        entries: Seq<VectorEntry>,
        rest: Seq<ColumnCandidate>,
        records: Seq<Record>,
        related: spec_fn(ColumnCandidate, Record) -> bool,
    )
        requires
            entries.len() == records.len(),
            forall|i: int|
                #![trigger entries[i]]
                #![trigger records[i]]
                0 <= i < entries.len() ==> entries[i].is_searched && entries[i].lid
                    == records[i].lid && self.embedding(records[i]@.fields, field) == Some(
                    entries[i].vector@,
                ) && related(rest[i], records[i]),
        ensures
            top_k::paired(
                self.column_candidates(plan, entries, rest),
                self.candidates(records, field, plan.query@, None, plan.metric),
                related,
            ),
        decreases entries.len(),
    {
        if entries.len() > 0 {
            let e = entries.drop_last();
            let r = records.drop_last();
            assert forall|i: int|
                #![trigger e[i]]
                #![trigger r[i]]
                0 <= i < e.len() implies e[i].is_searched && e[i].lid == r[i].lid
                && self.embedding(r[i]@.fields, field) == Some(e[i].vector@) && related(
                rest[i],
                r[i],
            ) by {
                assert(e[i] == entries[i] && r[i] == records[i]);
            }
            self.law_columns_pair_with_records(plan, field, e, rest, r, related);
            let n = entries.len() - 1;
            assert(entries[n].lid == records[n].lid);
            if let Some(score) = self.entry_score(plan, entries[n]) {
                top_k::lemma_paired_push(
                    self.column_candidates(plan, e, rest),
                    self.candidates(r, field, plan.query@, None, plan.metric),
                    Ranked { score, lid: entries[n].lid, item: rest[n] },
                    Ranked { score, lid: records.last().lid, item: records.last() },
                    related,
                );
            }
        }
    }

    /// The records that compete among those that pass are those that compete and
    /// pass.
    proof fn lemma_candidates_of_selected<T: Fn(&Record, &(String, FilterOp, Value)) -> bool>(
        &self,
        test: T,
        f: Option<FilterExprV>,
        records: Seq<Record>,
        field: Seq<char>,
        query: Seq<u32>,
        metric: SimilarityMetric,
    )
        ensures
            self.candidates(selection::selected(test, f, records), field, query, None, metric)
                == self.candidates(records, field, query, None, metric).filter(
                record_passing(test, f),
            ),
            forall|i: int|
                0 <= i < self.candidates(records, field, query, None, metric).len() ==> (
                #[trigger] self.candidates(records, field, query, None, metric)[i]).lid
                    == self.candidates(records, field, query, None, metric)[i].item.lid,
        decreases records.len(),
    {
        let pass = record_passing(test, f);
        reveal(Seq::filter);
        if records.len() == 0 {
            assert(self.candidates(records, field, query, None, metric).filter(pass) =~= Seq::<
                Ranked<Record>,
            >::empty());
        } else {
            let d = records.drop_last();
            let last = records.last();
            self.lemma_candidates_of_selected(test, f, d, field, query, metric);
            let before = self.candidates(d, field, query, None, metric);
            let chosen = selection::selected(test, f, d);
            if selection::passes(test, f, last@) {
                assert(chosen.push(last).drop_last() =~= chosen);
            }
            if let Some(score) = self.score_of(last@, field, query, None, metric) {
                let x = Ranked { score, lid: last.lid, item: last };
                lemma_filter_push(before, x, pass);
            }
        }
    }

    /// What a search over the vectors of one bucket answers is what the search among
    /// the records gives that the scan before it selects: the same records in the
    /// same order. Where its time was up, it is the beginning of that answer, and the
    /// best that pass of the candidates that were read. `records` are those of the
    /// bucket, with which the candidates are paired by their reading, and `whole` is
    /// what the search among those that pass gives.
    pub proof fn law_fused_run_is_nearest<
        R: Fn(&ColumnCandidate) -> Result<Record, XyzError>,
        C: Fn() -> u64,
        T: Fn(&Record, &(String, FilterOp, Value)) -> bool,
    >(
        &self,
        facts: ScanFacts,
        stmt: NearestStmt,
        plan: FusedPlan,
        seen: Seq<Ranked<ColumnCandidate>>,
        h: Hydration,
        records: Seq<Record>,
        read: R,
        clock: C,
        test: T,
        f: Option<FilterExprV>,
        answer: Vec<Record>,
        stop: Option<BudgetStop>,
        whole: Result<Vec<Record>, XyzError>,
    )
        requires
            self.is_fused_plan(facts, stmt, Some(plan)),
            seen.len() <= usize::MAX,
            top_k::paired(
                seen,
                self.candidates(records, stmt.field@, plan.query@, None, plan.metric),
                gives(read),
            ),
            h.ranking() == top_k::best(seen, kept_for(plan) as nat),
            h.checks() == plan.has_residual,
            h.wanted() == plan.k,
            h.is_run(read, clock, test, f, Ok(Some((answer, stop)))),
            self.is_nearest(selection::selected(test, f, records), stmt, whole),
        ensures
            whole is Ok,
            stop is None ==> aggregate::records_view(answer@) == aggregate::records_view(
                whole->Ok_0@,
            ),
            stop matches Some(b) ==> {
                &&& b.found == answer@.len()
                &&& b.found <= b.examined <= b.candidates
                &&& aggregate::records_view(answer@).is_prefix_of(
                    aggregate::records_view(whole->Ok_0@),
                )
                &&& aggregate::records_view(answer@) == aggregate::records_view(
                    items_of(
                        top_k::best(
                            passing(
                                top_k::ranked(
                                    self.candidates(
                                        records,
                                        stmt.field@,
                                        plan.query@,
                                        None,
                                        plan.metric,
                                    ),
                                ),
                                record_passing(test, f),
                                b.examined as int,
                            ),
                            plan.k as nat,
                        ),
                    ),
                )
            },
    {
        let cands = self.candidates(records, stmt.field@, plan.query@, None, plan.metric);
        let pass = record_passing(test, f);
        let k = plan.k as nat;
        self.lemma_candidates_of_selected(
            test,
            f,
            records,
            stmt.field@,
            plan.query@,
            plan.metric,
        );
        let wanted = top_k::best(cands.filter(pass), k);
        assert(whole is Ok && whole->Ok_0@ == items_of(wanted)) by {
            let q = choose|q: Result<Vec<u32>, XyzError>| #[trigger]
                self.is_query(selection::selected(test, f, records), stmt, q) && match q {
                    Err(e) => whole == Err::<Vec<Record>, XyzError>(e),
                    Ok(query) => whole matches Ok(v) && v@ == items_of(
                        top_k::best(
                            self.candidates(
                                selection::selected(test, f, records),
                                stmt.field@,
                                query@,
                                Self::excluded(stmt.query),
                                plan.metric,
                            ),
                            stmt.k as nat,
                        ),
                    ),
                };
            assert(q matches Ok(v) && v@ == plan.query@);
        }
        assert(h.is_answer(read, clock, test, f, answer@, stop));
        let read_records = choose|z: Seq<Record>| #[trigger]
            h.is_reading(read, clock, test, f, z, answer@, stop);
        let m = read_records.len() as int;
        let all_read = hydrated(h.ranking(), read_records);
        let passed = all_read.filter(pass);
        // The candidates that were read are the first of the records in order.
        let rc = top_k::best(cands, kept_for(plan) as nat);
        top_k::law_pairs_rank_alike(seen, cands, gives(read), kept_for(plan) as nat);
        top_k::law_best_is_best(cands, kept_for(plan) as nat);
        top_k::lemma_ranked_in_order(cands);
        let first = top_k::ranked(cands).take(m);
        assert(first =~= rc.take(m));
        assert(top_k::paired(all_read, first, same_record())) by {
            assert forall|i: int|
                #![trigger all_read[i]]
                #![trigger first[i]]
                0 <= i < m implies all_read[i].score == first[i].score && all_read[i].lid
                == first[i].lid && all_read[i].item@ == first[i].item@ by {
                assert(h.ranking()[i].score == rc[i].score);
                assert(first[i] == rc[i]);
                assert(cands.contains(rc[i]));
                let j = choose|j: int| 0 <= j < cands.len() && cands[j] == rc[i];
                assert(cands[j].lid == cands[j].item.lid);
                assert(gives(read)(h.ranking()[i].item, rc[i].item));
                assert(read.ensures((&h.ranking()[i].item,), Ok(read_records[i])));
                assert(read_records[i]@.lid == rc[i].item@.lid);
            }
        }
        assert forall|i: int|
            #![trigger all_read[i]]
            #![trigger first[i]]
            0 <= i < m implies pass(all_read[i]) == pass(first[i]) by {
            assert(all_read[i].item@ == first[i].item@);
        }
        top_k::lemma_filter_paired(all_read, first, same_record(), pass, pass);
        let part = passing(top_k::ranked(cands), pass, m);
        top_k::law_pairs_rank_alike(passed, part, same_record(), k);
        let got = top_k::best(part, k);
        assert(aggregate::records_view(answer@) =~= aggregate::records_view(items_of(got))) by {
            let mine = top_k::best(passed, k);
            assert forall|i: int| 0 <= i < mine.len() implies (#[trigger] mine[i]).item@
                == got[i].item@ by {}
        }
        law_partial_answer_is_prefix(cands, pass, k, m);
        top_k::law_best_is_best(cands.filter(pass), k);
        top_k::law_best_is_best(part, k);
        lemma_filter_len(first, pass);
        lemma_filter_len(cands, pass);
        assert(answer@.len() == got.len());
        if stop is None {
            if !plan.has_residual {
                assert(passed.len() == m);
            } else if answer@.len() != plan.k {
                law_fused_is_filter_then_search(cands, pass, k, m);
            }
            assert(got =~= wanted);
        }
        assert(aggregate::records_view(items_of(got)).is_prefix_of(
            aggregate::records_view(items_of(wanted)),
        )) by {
            let x = aggregate::records_view(items_of(got));
            let y = aggregate::records_view(items_of(wanted));
            assert(x =~= y.take(x.len() as int));
        }
    }
}

/// How many candidates a search keeps until their records are read: as many as
/// wanted, or all where they have to be checked.
pub open spec fn kept_for(plan: FusedPlan) -> usize {
    if plan.has_residual {
        usize::MAX
    } else {
        plan.k
    }
}

/// Reading a candidate gives the record.
pub open spec fn gives<R: Fn(&ColumnCandidate) -> Result<Record, XyzError>>(
    read: R,
) -> spec_fn(ColumnCandidate, Record) -> bool {
    |c: ColumnCandidate, r: Record|
        forall|x: Record| #[trigger] read.ensures((&c,), Ok(x)) ==> x@ == r@
}

/// Two records stand for the same.
pub open spec fn same_record() -> spec_fn(Record, Record) -> bool {
    |a: Record, b: Record| a@ == b@
}

proof fn lemma_filter_len<P>(s: Seq<P>, pass: spec_fn(P) -> bool)
    ensures
        s.filter(pass).len() <= s.len(),
    decreases s.len(),
{
    reveal(Seq::filter);
    if s.len() > 0 {
        lemma_filter_len(s.drop_last(), pass);
    }
}

/// The reading of the candidates' records, best first.
pub struct Hydration {
    has_residual: bool,
    budget_ms: u64,
    scanned: usize,
    cands: Vec<Ranked<ColumnCandidate>>,
    pos: usize,
    read: usize,
    truncated: bool,
    top: TopK<Record>,
}

/// How far a search came before its time was up.
#[derive(Clone, Copy, Debug, PartialEq, Eq, Structural)]
pub struct BudgetStop {
    pub examined: usize,
    pub candidates: usize,
    pub found: usize,
}

impl Hydration {
    /// The candidates, best first.
    pub closed spec fn ranking(&self) -> Seq<Ranked<ColumnCandidate>> {
        self.cands@
    }

    /// Candidates have to be checked.
    pub closed spec fn checks(&self) -> bool {
        self.has_residual
    }

    /// The time that the search may take, if it is limited.
    pub closed spec fn budget(&self) -> u64 {
        self.budget_ms
    }

    /// How many candidates were looked at, while scoring and since.
    pub closed spec fn looked_at(&self) -> usize {
        self.scanned
    }

    /// The place of the next candidate.
    pub closed spec fn at(&self) -> usize {
        self.pos
    }

    /// How many candidates were read.
    pub closed spec fn examined(&self) -> usize {
        self.read
    }

    /// The time was up before the reading was done.
    pub closed spec fn cut(&self) -> bool {
        self.truncated
    }

    /// How many records are wanted.
    pub closed spec fn wanted(&self) -> usize {
        self.top.wanted()
    }

    /// The records so far.
    pub closed spec fn found(&self) -> Seq<Ranked<Record>> {
        self.top.seen()
    }

    /// The reading is done: no candidate is left, or enough of those that have
    /// to be checked passed.
    pub open spec fn done(&self) -> bool {
        self.at() >= self.ranking().len() || (self.checks() && top_k::best(
            self.found(),
            self.wanted() as nat,
        ).len() == self.wanted())
    }

    /// Which candidate's record is to be read next; none where the reading is
    /// done or the time is up.
    pub fn advance(&mut self, elapsed_ms: u64) -> (r: Option<usize>)
        requires
            old(self).looked_at() < usize::MAX,
            old(self).examined() <= old(self).at() <= old(self).ranking().len(),
        ensures
            final(self).ranking() == old(self).ranking(),
            final(self).checks() == old(self).checks(),
            final(self).budget() == old(self).budget(),
            final(self).wanted() == old(self).wanted(),
            final(self).found() == old(self).found(),
            final(self).examined() <= final(self).at() <= final(self).ranking().len(),
            if old(self).done() {
                r is None && final(self).looked_at() == old(self).looked_at() && final(self).at()
                    == old(self).at() && final(self).examined() == old(self).examined()
                    && final(self).cut() == old(self).cut()
            } else if out_of_time(old(self).looked_at() + 1, old(self).budget(), elapsed_ms) {
                r is None && final(self).looked_at() == old(self).looked_at() + 1
                    && final(self).at() == old(self).at() && final(self).examined() == old(
                    self,
                ).examined() && final(self).cut()
            } else {
                r == Some(old(self).at()) && final(self).looked_at() == old(self).looked_at() + 1
                    && final(self).at() == old(self).at() + 1 && final(self).examined() == old(
                    self,
                ).examined() + 1 && final(self).cut() == old(self).cut()
            },
    {
        if self.pos >= self.cands.len() {
            return None;
        }
        if self.has_residual && self.top.len() == self.wanted_exec() {
            return None;
        }
        self.scanned = self.scanned + 1;
        if is_out_of_time(self.scanned, self.budget_ms, elapsed_ms) {
            self.truncated = true;
            return None;
        }
        let p: usize = self.pos;
        self.read = self.read + 1;
        self.pos = self.pos + 1;
        Some(p)
    }

    fn wanted_exec(&self) -> (r: usize)
        ensures
            r == self.wanted(),
    {
        self.top.limit()
    }

    /// The candidate at a place.
    pub fn candidate(&self, i: usize) -> (r: &ColumnCandidate)
        requires
            i < self.ranking().len(),
        ensures
            *r == self.ranking()[i as int].item,
    {
        &self.cands[i].item
    }

    /// Takes the record of the candidate at a place, unless it does not pass. Says
    /// whether the search goes on: where candidates do not have to be checked, one
    /// that does not pass only shares the bucket, and the search gives up, for it may
    /// have pushed out another one.
    pub fn settle(&mut self, i: usize, rec: Record, passes: bool) -> (go_on: bool)
        requires
            i < old(self).ranking().len(),
        ensures
            final(self).ranking() == old(self).ranking(),
            final(self).checks() == old(self).checks(),
            final(self).budget() == old(self).budget(),
            final(self).looked_at() == old(self).looked_at(),
            final(self).at() == old(self).at(),
            final(self).examined() == old(self).examined(),
            final(self).cut() == old(self).cut(),
            final(self).wanted() == old(self).wanted(),
            go_on == (passes || old(self).checks()),
            final(self).found() == if passes {
                old(self).found().push(
                    Ranked { score: old(self).ranking()[i as int].score, lid: rec.lid, item: rec },
                )
            } else {
                old(self).found()
            },
    {
        if passes {
            let score: u64 = self.cands[i].score;
            let lid: u128 = rec.lid;
            self.top.offer(score, lid, rec);
        }
        passes || self.has_residual
    }

    /// Nothing was read yet.
    pub open spec fn fresh(&self) -> bool {
        &&& self.at() == 0
        &&& self.examined() == 0
        &&& !self.cut()
        &&& self.found() == Seq::<Ranked<Record>>::empty()
    }

    /// What reading the candidates in turn leads to, where `records` are those that
    /// were read and the clock was looked at before each.
    pub open spec fn is_reading<
        R: Fn(&ColumnCandidate) -> Result<Record, XyzError>,
        C: Fn() -> u64,
        T: Fn(&Record, &(String, FilterOp, Value)) -> bool,
    >(
        &self,
        read: R,
        clock: C,
        test: T,
        f: Option<FilterExprV>,
        records: Seq<Record>,
        answer: Seq<Record>,
        stop: Option<BudgetStop>,
    ) -> bool {
        let all = hydrated(self.ranking(), records);
        let passed = all.filter(record_passing(test, f));
        &&& read_in_turn(read, self.ranking(), records)
        &&& answer == items_of(top_k::best(passed, self.wanted() as nat))
        &&& !self.checks() ==> passed == all
        &&& match stop {
            None => records.len() == self.ranking().len() || (self.checks() && answer.len()
                == self.wanted()),
            Some(b) => {
                &&& b.examined == records.len()
                &&& b.candidates == self.ranking().len()
                &&& b.found == answer.len()
                &&& exists|t: u64| #[trigger]
                    clock.ensures((), t) && out_of_time(
                        self.looked_at() + records.len() + 1,
                        self.budget(),
                        t,
                    )
            },
        }
    }

    /// What reading the candidates in turn leads to.
    pub open spec fn is_answer<
        R: Fn(&ColumnCandidate) -> Result<Record, XyzError>,
        C: Fn() -> u64,
        T: Fn(&Record, &(String, FilterOp, Value)) -> bool,
    >(
        &self,
        read: R,
        clock: C,
        test: T,
        f: Option<FilterExprV>,
        answer: Seq<Record>,
        stop: Option<BudgetStop>,
    ) -> bool {
        exists|records: Seq<Record>| #[trigger]
            self.is_reading(read, clock, test, f, records, answer, stop)
    }

    /// The record of some candidate does not pass.
    pub open spec fn some_fails<
        R: Fn(&ColumnCandidate) -> Result<Record, XyzError>,
        T: Fn(&Record, &(String, FilterOp, Value)) -> bool,
    >(&self, read: R, test: T, f: Option<FilterExprV>) -> bool {
        exists|i: int, rec: Record|
            0 <= i < self.ranking().len() && #[trigger] read.ensures(
                (&self.ranking()[i].item,),
                Ok(rec),
            ) && !selection::passes(test, f, rec@)
    }

    /// What a search gives whose candidates are read in turn: its answer, and how
    /// far it came where the time was up; nothing where a candidate does not pass
    /// that was not to be checked; or the failure of reading one.
    pub open spec fn is_run<
        R: Fn(&ColumnCandidate) -> Result<Record, XyzError>,
        C: Fn() -> u64,
        T: Fn(&Record, &(String, FilterOp, Value)) -> bool,
    >(
        &self,
        read: R,
        clock: C,
        test: T,
        f: Option<FilterExprV>,
        r: Result<Option<(Vec<Record>, Option<BudgetStop>)>, XyzError>,
    ) -> bool {
        match r {
            Ok(Some(x)) => self.is_answer(read, clock, test, f, x.0@, x.1),
            Ok(None) => !self.checks() && self.some_fails(read, test, f),
            Err(e) => exists|i: int|
                0 <= i < self.ranking().len() && #[trigger] read.ensures(
                    (&self.ranking()[i].item,),
                    Err(e),
                ),
        }
    }

    /// Reads the candidates in turn, best first: `read` gives the record of one, and
    /// `clock` the time since the search began. Nothing is answered where a candidate
    /// that was not to be checked does not pass.
    pub fn run<
        R: Fn(&ColumnCandidate) -> Result<Record, XyzError>,
        C: Fn() -> u64,
        T: Fn(&Record, &(String, FilterOp, Value)) -> bool,
    >(self, read: &R, clock: &C, filter: &Option<FilterExpr>, test: &T) -> (r: Result<
        Option<(Vec<Record>, Option<BudgetStop>)>,
        XyzError,
    >)
        requires
            self.fresh(),
            self.looked_at() + self.ranking().len() < usize::MAX,
            forall|c: &ColumnCandidate| #[trigger] read.requires((c,)),
            clock.requires(()),
            selection::tests(*test),
            selection::bound(filter::opt_expr_view(*filter)),
        ensures
            self.is_run(*read, *clock, *test, filter::opt_expr_view(*filter), r),
    {
        let ghost f = filter::opt_expr_view(*filter);
        let ghost pass = record_passing(*test, f);
        let ghost ranking = self.ranking();
        let ghost mut records: Seq<Record> = Seq::empty();
        let mut h = self;
        proof {
            assert(hydrated(ranking, records) =~= Seq::<Ranked<Record>>::empty());
            lemma_filter_keeps_all(hydrated(ranking, records), pass);
        }
        loop
            invariant
                h.ranking() == ranking,
                ranking == self.ranking(),
                h.checks() == self.checks(),
                h.budget() == self.budget(),
                h.wanted() == self.wanted(),
                !h.cut(),
                h.at() == records.len(),
                h.examined() == records.len(),
                records.len() <= ranking.len(),
                h.looked_at() == self.looked_at() + records.len(),
                self.looked_at() + ranking.len() < usize::MAX,
                f == filter::opt_expr_view(*filter),
                pass == record_passing(*test, f),
                read_in_turn(*read, ranking, records),
                h.found() == hydrated(ranking, records).filter(pass),
                !h.checks() ==> hydrated(ranking, records).filter(pass) == hydrated(
                    ranking,
                    records,
                ),
                forall|c: &ColumnCandidate| #[trigger] read.requires((c,)),
                clock.requires(()),
                selection::tests(*test),
                selection::bound(f),
            decreases ranking.len() - records.len(),
        {
            let ghost before = h;
            let t: u64 = clock();
            match h.advance(t) {
                None => {
                    let ghost end = h;
                    let out = h.finish();
                    proof {
                        if end.cut() {
                            assert(clock.ensures((), t));
                        }
                        assert(items_of(
                            top_k::best(end.found(), end.wanted() as nat),
                        ).len() == top_k::best(end.found(), end.wanted() as nat).len());
                        assert(self.is_reading(*read, *clock, *test, f, records, out.0@, out.1));
                        assert(self.is_answer(*read, *clock, *test, f, out.0@, out.1));
                    }
                    return Ok(Some(out));
                },
                Some(i) => {
                    let rec = match read(h.candidate(i)) {
                        Ok(rec) => rec,
                        Err(e) => {
                            assert(read.ensures((&self.ranking()[i as int].item,), Err(e)));
                            return Err(e);
                        },
                    };
                    let ghost was = records;
                    let passes = selection::record_passes(test, filter, &rec);
                    proof {
                        assert(read.ensures((&self.ranking()[i as int].item,), Ok(rec)));
                        records = was.push(rec);
                        let x = Ranked { score: ranking[i as int].score, lid: rec.lid, item: rec };
                        assert(hydrated(ranking, records) =~= hydrated(ranking, was).push(x));
                        lemma_filter_push(hydrated(ranking, was), x, pass);
                        assert(pass(x) == passes);
                        assert forall|j: int| 0 <= j < records.len() implies read.ensures(
                            (&ranking[j].item,),
                            Ok(#[trigger] records[j]),
                        ) by {
                            if j < was.len() {
                                assert(records[j] == was[j]);
                            }
                        }
                    }
                    if !h.settle(i, rec, passes) {
                        return Ok(None);
                    }
                },
            }
        }
    }

    /// The records, most similar first, and how far the search came where its
    /// time was up.
    pub fn finish(self) -> (r: (Vec<Record>, Option<BudgetStop>))
        ensures
            r.0@ == items_of(top_k::best(self.found(), self.wanted() as nat)),
            r.1 == if self.cut() {
                Some(
                    BudgetStop {
                        examined: self.examined(),
                        candidates: self.ranking().len() as usize,
                        found: r.0@.len() as usize,
                    },
                )
            } else {
                None
            },
    {
        let candidates: usize = self.cands.len();
        let out = take_items(self.top.into_best());
        let stop = if self.truncated {
            Some(BudgetStop { examined: self.read, candidates, found: out.len() })
        } else {
            None
        };
        (out, stop)
    }
}

/// The records are what reading the first candidates gave, in turn.
pub open spec fn read_in_turn<R: Fn(&ColumnCandidate) -> Result<Record, XyzError>>(
    read: R,
    ranking: Seq<Ranked<ColumnCandidate>>,
    records: Seq<Record>,
) -> bool {
    &&& records.len() <= ranking.len()
    &&& forall|i: int|
        0 <= i < records.len() ==> read.ensures((&ranking[i].item,), Ok(#[trigger] records[i]))
}

/// The first candidates with their records.
pub open spec fn hydrated(
    ranking: Seq<Ranked<ColumnCandidate>>,
    records: Seq<Record>,
) -> Seq<Ranked<Record>> {
    Seq::new(
        records.len(),
        |i: int| Ranked { score: ranking[i].score, lid: records[i].lid, item: records[i] },
    )
}

/// The candidates whose records pass the condition.
pub open spec fn record_passing<T: Fn(&Record, &(String, FilterOp, Value)) -> bool>(
    test: T,
    f: Option<FilterExprV>,
) -> spec_fn(Ranked<Record>) -> bool {
    |x: Ranked<Record>| selection::passes(test, f, x.item@)
}

proof fn lemma_filter_push<P>(s: Seq<P>, x: P, pass: spec_fn(P) -> bool)
    ensures
        s.push(x).filter(pass) == if pass(x) {
            s.filter(pass).push(x)
        } else {
            s.filter(pass)
        },
{
    reveal(Seq::filter);
    assert(s.push(x).drop_last() =~= s);
}

/// The records of candidates that pass, in their order: what reading them leads
/// to, as far as it goes.
pub open spec fn passing(
    ranking: Seq<Ranked<Record>>,
    pass: spec_fn(Ranked<Record>) -> bool,
    upto: int,
) -> Seq<Ranked<Record>> {
    ranking.take(upto).filter(pass)
}

/// To read the candidates of a bucket best first, until `k` of them pass, gives
/// what a search among the records that pass gives.
pub proof fn law_fused_is_filter_then_search(
    all: Seq<Ranked<Record>>,
    pass: spec_fn(Ranked<Record>) -> bool,
    k: nat,
    upto: int,
)
    requires
        0 <= upto <= all.len(),
        upto == all.len() || passing(top_k::ranked(all), pass, upto).len() == k,
    ensures
        top_k::best(passing(top_k::ranked(all), pass, upto), k) == top_k::best(
            all.filter(pass),
            k,
        ),
{
    let ranking = top_k::ranked(all);
    top_k::law_filter_after_ranking(all, pass, k);
    top_k::lemma_ranked_in_order(all);
    let part = passing(ranking, pass, upto);
    lemma_filter_in_order(ranking.take(upto), pass);
    top_k::law_ordered_candidates_stay(part);
    if upto == all.len() {
        assert(ranking.take(upto) =~= ranking);
    } else {
        assert(ranking =~= ranking.take(upto) + ranking.skip(upto));
        lemma_filter_split(ranking.take(upto), ranking.skip(upto), pass);
        let whole = ranking.filter(pass);
        assert(whole =~= part + ranking.skip(upto).filter(pass));
        assert(top_k::at_most(whole, k) =~= part);
    }
}

/// Where the best `k` records of a bucket all pass, they are what a search among the
/// records that pass gives: those need not be told apart before they are ranked.
pub proof fn law_passing_answer_is_exact(
    all: Seq<Ranked<Record>>,
    pass: spec_fn(Ranked<Record>) -> bool,
    k: nat,
)
    requires
        forall|i: int|
            0 <= i < top_k::best(all, k).len() ==> pass(#[trigger] top_k::best(all, k)[i]),
    ensures
        top_k::best(all, k) == top_k::best(all.filter(pass), k),
{
    let ranking = top_k::ranked(all);
    let best = top_k::best(all, k);
    top_k::law_filter_after_ranking(all, pass, k);
    let n = best.len() as int;
    assert(best =~= ranking.take(n));
    assert(ranking =~= ranking.take(n) + ranking.skip(n));
    lemma_filter_split(ranking.take(n), ranking.skip(n), pass);
    lemma_filter_keeps_all(best, pass);
    let whole = ranking.filter(pass);
    assert(whole =~= best + ranking.skip(n).filter(pass));
    if n < k {
        assert(ranking.skip(n) =~= Seq::<Ranked<Record>>::empty());
        lemma_filter_keeps_all(ranking.skip(n), pass);
    }
    assert(top_k::at_most(whole, k) =~= best);
}

proof fn lemma_filter_keeps_all<P>(s: Seq<P>, pass: spec_fn(P) -> bool)
    requires
        forall|i: int| 0 <= i < s.len() ==> pass(#[trigger] s[i]),
    ensures
        s.filter(pass) == s,
    decreases s.len(),
{
    reveal(Seq::filter);
    if s.len() > 0 {
        let d = s.drop_last();
        assert forall|i: int| 0 <= i < d.len() implies pass(#[trigger] d[i]) by {
            assert(d[i] == s[i]);
        }
        lemma_filter_keeps_all(d, pass);
        assert(pass(s[s.len() - 1]));
        assert(d.push(s.last()) =~= s);
    }
}

/// To stop reading the candidates of a bucket early gives the beginning of the whole
/// answer.
pub proof fn law_partial_answer_is_prefix(
    all: Seq<Ranked<Record>>,
    pass: spec_fn(Ranked<Record>) -> bool,
    k: nat,
    upto: int,
)
    requires
        0 <= upto <= all.len(),
    ensures
        top_k::best(passing(top_k::ranked(all), pass, upto), k).is_prefix_of(
            top_k::best(all.filter(pass), k),
        ),
{
    let ranking = top_k::ranked(all);
    top_k::law_filter_after_ranking(all, pass, k);
    top_k::lemma_ranked_in_order(all);
    let part = passing(ranking, pass, upto);
    assert(top_k::in_order(ranking.take(upto))) by {
        assert forall|i: int, j: int| 0 <= i < j < upto implies !top_k::ahead(
            #[trigger] ranking.take(upto)[j],
            #[trigger] ranking.take(upto)[i],
        ) by {
            assert(!top_k::ahead(ranking[j], ranking[i]));
        }
    }
    lemma_filter_in_order(ranking.take(upto), pass);
    top_k::law_ordered_candidates_stay(part);
    assert(ranking =~= ranking.take(upto) + ranking.skip(upto));
    lemma_filter_split(ranking.take(upto), ranking.skip(upto), pass);
    assert(ranking.filter(pass) =~= part + ranking.skip(upto).filter(pass));
    let whole = ranking.filter(pass);
    assert(top_k::at_most(part, k) =~= top_k::at_most(whole, k).take(
        top_k::at_most(part, k).len() as int,
    ));
}

proof fn lemma_filter_split<P>(a: Seq<P>, b: Seq<P>, pass: spec_fn(P) -> bool)
    ensures
        (a + b).filter(pass) == a.filter(pass) + b.filter(pass),
    decreases b.len(),
{
    reveal(Seq::filter);
    if b.len() == 0 {
        assert(a + b =~= a);
        assert(a.filter(pass) + b.filter(pass) =~= a.filter(pass));
    } else {
        lemma_filter_split(a, b.drop_last(), pass);
        assert((a + b).drop_last() =~= a + b.drop_last());
        assert(b.filter(pass) =~= if pass(b.last()) {
            b.drop_last().filter(pass).push(b.last())
        } else {
            b.drop_last().filter(pass)
        });
        assert((a + b).filter(pass) =~= a.filter(pass) + b.filter(pass));
    }
}

proof fn lemma_filter_in_order<P>(s: Seq<Ranked<P>>, pass: spec_fn(Ranked<P>) -> bool)
    requires
        top_k::in_order(s),
    ensures
        top_k::in_order(s.filter(pass)),
    decreases s.len(),
{
    reveal(Seq::filter);
    if s.len() > 0 {
        let d = s.drop_last();
        assert(top_k::in_order(d)) by {
            assert forall|i: int, j: int| 0 <= i < j < d.len() implies !top_k::ahead(
                #[trigger] d[j],
                #[trigger] d[i],
            ) by {
                assert(s[i] == d[i] && s[j] == d[j]);
            }
        }
        lemma_filter_in_order(d, pass);
        if pass(s.last()) {
            let f = d.filter(pass);
            assert forall|i: int, j: int| 0 <= i < j < f.len() + 1 implies !top_k::ahead(
                #[trigger] f.push(s.last())[j],
                #[trigger] f.push(s.last())[i],
            ) by {
                if j == f.len() {
                    d.lemma_filter_contains_rev(pass, f[i]);
                    let m = choose|m: int| 0 <= m < d.len() && d[m] == f[i];
                    assert(!top_k::ahead(s[s.len() - 1], s[m]));
                }
            }
        }
    }
}

} // verus!
