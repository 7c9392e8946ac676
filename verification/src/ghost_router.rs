//! Where a scan reads from: the primary keyspace or a ghost.

use crate::ast;
use crate::ast::{FilterExpr, FilterExprV};
use crate::bytes;
use crate::filter;
use crate::record;
use crate::record::FilterOp;
use crate::sorted_map;
use crate::sorted_map::SortedMap;
use crate::text;
use crate::value;
use crate::value::{Value, ValueV};
use vstd::prelude::*;

verus! {

/// Where to read from.
#[derive(Debug)]
pub enum ScanSource {
    Primary,
    /// A ghost whose entries refer to records, in the order of its sort key.
    GhostRecords(String),
    /// A ghost's precomputed aggregates, without any scan.
    GhostPreComputed(String),
}

/// What a [`ScanSource`] stands for.
pub enum ScanSourceV {
    Primary,
    GhostRecords(Seq<char>),
    GhostPreComputed(Seq<char>),
}

impl View for ScanSource {
    type V = ScanSourceV;

    open spec fn view(&self) -> ScanSourceV {
        match self {
            ScanSource::Primary => ScanSourceV::Primary,
            ScanSource::GhostRecords(n) => ScanSourceV::GhostRecords(n@),
            ScanSource::GhostPreComputed(n) => ScanSourceV::GhostPreComputed(n@),
        }
    }
}

/// What the router knows of a ghost.
struct GhostRoutingMeta {
    /// The conditions of a conjunctive membership predicate; empty for any
    /// other predicate.
    filter_fields: Vec<(String, FilterOp, Value)>,
    /// The whole membership predicate.
    filter: FilterExpr,
    /// The scan pattern an automatic ghost was made for. Not used to route.
    filter_desc: Option<String>,
    order_by_field: String,
    sort_inverted: bool,
    has_aggregates: bool,
    group_fields: Vec<String>,
    /// The signatures of the metrics the ghost precomputes.
    aggregate_sig: Vec<String>,
    state_ready: bool,
    /// The ghost embeds only some fields of each record.
    has_projection: bool,
}

/// What the router knows of a ghost.
pub struct RouteV {
    pub filter_fields: Seq<(Seq<char>, FilterOp, ValueV)>,
    pub filter: FilterExprV,
    pub filter_desc: Option<Seq<char>>,
    pub order_by_field: Seq<char>,
    pub sort_inverted: bool,
    pub has_aggregates: bool,
    pub group_fields: Seq<Seq<char>>,
    pub aggregate_sig: Seq<Seq<char>>,
    pub state_ready: bool,
    pub has_projection: bool,
}

impl View for GhostRoutingMeta {
    type V = RouteV;

    closed spec fn view(&self) -> RouteV {
        RouteV {
            filter_fields: record::predicates_view(self.filter_fields@),
            filter: self.filter@,
            filter_desc: match self.filter_desc {
                Some(d) => Some(d@),
                None => None,
            },
            order_by_field: self.order_by_field@,
            sort_inverted: self.sort_inverted,
            has_aggregates: self.has_aggregates,
            group_fields: text::names(self.group_fields@),
            aggregate_sig: text::names(self.aggregate_sig@),
            state_ready: self.state_ready,
            has_projection: self.has_projection,
        }
    }
}

/// Predicate `p` is among `ps`: the same field and operator, and an equal
/// value.
pub open spec fn among(
    p: (Seq<char>, FilterOp, ValueV),
    ps: Seq<(Seq<char>, FilterOp, ValueV)>,
) -> bool {
    exists|i: int| 0 <= i < ps.len() && same_predicate(p, #[trigger] ps[i])
}

/// The two predicates say the same.
pub open spec fn same_predicate(
    p: (Seq<char>, FilterOp, ValueV),
    q: (Seq<char>, FilterOp, ValueV),
) -> bool {
    p.0 == q.0 && p.1 == q.1 && value::value_eq(p.2, q.2)
}

/// Every record that the query selects is a member of the ghost: the query's
/// predicate is the ghost's, or the ghost's conditions are all among the
/// query's. A ghost whose predicate is no conjunction is found only by the
/// first rule.
pub open spec fn relevant(
    r: RouteV,
    filters: Seq<(Seq<char>, FilterOp, ValueV)>,
    query: Option<FilterExprV>,
) -> bool {
    r.state_ready && ((query matches Some(q) && ast::expr_eq(r.filter, q)) || (ast::is_flat(
        r.filter,
    ) && forall|i: int|
        0 <= i < r.filter_fields.len() ==> among(#[trigger] r.filter_fields[i], filters)))
}

/// The query's predicate `q` is one of the ghost's conditions, or pins one of
/// its group fields.
pub open spec fn covered(r: RouteV, q: (Seq<char>, FilterOp, ValueV)) -> bool {
    among(q, r.filter_fields) || (q.1 == FilterOp::Eq && r.group_fields.contains(q.0))
}

/// The conditions are all that the query's predicate says, or the ghost's
/// predicate is the query's: a predicate that is no conjunction has no conditions
/// to be covered, and would be dropped by any other ghost.
pub open spec fn whole_predicate(r: RouteV, query: Option<FilterExprV>) -> bool {
    query matches Some(e) ==> ast::is_flat(e) || ast::expr_eq(r.filter, e)
}

/// The ghost's precomputed aggregates answer an aggregate query: its groups
/// are the query's and it covers every predicate.
pub open spec fn precomputes(
    r: RouteV,
    filters: Seq<(Seq<char>, FilterOp, ValueV)>,
    group_by: Seq<Seq<char>>,
    query: Option<FilterExprV>,
) -> bool {
    r.has_aggregates && r.group_fields == group_by && whole_predicate(r, query) && forall|i: int|
        0 <= i < filters.len() ==> covered(r, #[trigger] filters[i])
}

/// The ghost's entries lead to whole records, one for each member.
pub open spec fn serves_records(r: RouteV) -> bool {
    !r.has_aggregates && r.group_fields.len() == 0 && !r.has_projection
}

/// The query pins a field that is an anchor of the lobe.
pub open spec fn pins_anchor(
    filters: Seq<(Seq<char>, FilterOp, ValueV)>,
    anchored: Option<Seq<Seq<char>>>,
) -> bool {
    anchored matches Some(a) && exists|i: int|
        0 <= i < filters.len() && (#[trigger] filters[i]).1 == FilterOp::Eq && a.contains(
            filters[i].0,
        )
}

/// What a plan is asked for.
pub struct PlanQuery {
    pub filters: Seq<(Seq<char>, FilterOp, ValueV)>,
    pub order_by: Option<(Seq<char>, bool)>,
    pub has_aggregates: bool,
    pub group_by: Seq<Seq<char>>,
    pub has_limit: bool,
    pub query: Option<FilterExprV>,
    pub anchored: Option<Seq<Seq<char>>>,
}

/// The ghost can answer the query from its precomputed aggregates.
pub open spec fn aggregate_candidate(r: RouteV, q: PlanQuery) -> bool {
    q.has_aggregates && relevant(r, q.filters, q.query) && precomputes(
        r,
        q.filters,
        q.group_by,
        q.query,
    )
}

/// The ghost can answer the query record by record: in the requested order
/// when there is one, which then needs a limit too.
pub open spec fn record_candidate(r: RouteV, q: PlanQuery) -> bool {
    relevant(r, q.filters, q.query) && serves_records(r) && match q.order_by {
        Some((field, descending)) => q.has_limit && r.order_by_field == field && r.sort_inverted
            == descending,
        None => true,
    }
}

/// `name` is the first of the candidates, by name.
pub open spec fn first_record_candidate(
    routes: Map<Seq<char>, RouteV>,
    q: PlanQuery,
    name: Seq<char>,
) -> bool {
    &&& routes.contains_key(name)
    &&& record_candidate(routes[name], q)
    &&& forall|m: Seq<char>| #[trigger]
        routes.contains_key(m) && record_candidate(routes[m], q) ==> m == name || bytes::str_lt(
            name,
            m,
        )
}

/// `name` is the candidate with the most conditions; of those with equally
/// many, the first by name.
pub open spec fn best_aggregate_candidate(
    routes: Map<Seq<char>, RouteV>,
    q: PlanQuery,
    name: Seq<char>,
) -> bool {
    &&& routes.contains_key(name)
    &&& aggregate_candidate(routes[name], q)
    &&& forall|m: Seq<char>| #[trigger]
        routes.contains_key(m) && aggregate_candidate(routes[m], q) ==> m == name
            || routes[m].filter_fields.len() < routes[name].filter_fields.len() || (
        routes[m].filter_fields.len() == routes[name].filter_fields.len() && bytes::str_lt(name, m))
}

/// Some ghost can answer from its precomputed aggregates.
pub open spec fn some_aggregate_candidate(
    routes: Map<Seq<char>, RouteV>,
    q: PlanQuery,
) -> bool {
    exists|m: Seq<char>| #[trigger] routes.contains_key(m) && aggregate_candidate(routes[m], q)
}

/// Some ghost can answer record by record.
pub open spec fn some_record_candidate(routes: Map<Seq<char>, RouteV>, q: PlanQuery) -> bool {
    exists|m: Seq<char>| #[trigger] routes.contains_key(m) && record_candidate(routes[m], q)
}

/// The plan for a query: a pinned anchor is looked up in the primary
/// keyspace; else precomputed aggregates, else a ghost of records, else the
/// primary keyspace.
pub open spec fn planned(
    routes: Map<Seq<char>, RouteV>,
    q: PlanQuery,
    r: ScanSourceV,
) -> bool {
    if pins_anchor(q.filters, q.anchored) {
        r == ScanSourceV::Primary
    } else if some_aggregate_candidate(routes, q) {
        r matches ScanSourceV::GhostPreComputed(name) && best_aggregate_candidate(routes, q, name)
    } else if some_record_candidate(routes, q) {
        r matches ScanSourceV::GhostRecords(name) && first_record_candidate(routes, q, name)
    } else {
        r == ScanSourceV::Primary
    }
}

/// The query has exactly one plan.
pub proof fn law_plan_is_unique(
    routes: Map<Seq<char>, RouteV>,
    q: PlanQuery,
    a: ScanSourceV,
    b: ScanSourceV,
)
    requires
        planned(routes, q, a),
        planned(routes, q, b),
    ensures
        a == b,
{
    if pins_anchor(q.filters, q.anchored) {
    } else if some_aggregate_candidate(routes, q) {
        let x = a->GhostPreComputed_0;
        let y = b->GhostPreComputed_0;
        assert(routes.contains_key(x) && routes.contains_key(y));
        if x != y {
            if bytes::str_lt(x, y) && bytes::str_lt(y, x) {
                bytes::lemma_lex_asymmetric(
                    vstd::utf8::encode_utf8(x),
                    vstd::utf8::encode_utf8(y),
                );
            }
        }
    } else if some_record_candidate(routes, q) {
        let x = a->GhostRecords_0;
        let y = b->GhostRecords_0;
        assert(routes.contains_key(x) && routes.contains_key(y));
        if x != y {
            bytes::lemma_lex_asymmetric(vstd::utf8::encode_utf8(x), vstd::utf8::encode_utf8(y));
        }
    }
}

/// A pinned anchor always reads the primary keyspace.
pub proof fn law_pinned_anchor_reads_primary(
    routes: Map<Seq<char>, RouteV>,
    q: PlanQuery,
    r: ScanSourceV,
)
    requires
        planned(routes, q, r),
        pins_anchor(q.filters, q.anchored),
    ensures
        r == ScanSourceV::Primary,
{
}

/// A plan never names a ghost that is unknown or not ready.
pub proof fn law_planned_ghost_is_ready(
    routes: Map<Seq<char>, RouteV>,
    q: PlanQuery,
    r: ScanSourceV,
)
    requires
        planned(routes, q, r),
    ensures
        r matches ScanSourceV::GhostRecords(n) ==> routes.contains_key(n) && routes[n].state_ready,
        r matches ScanSourceV::GhostPreComputed(n) ==> routes.contains_key(n)
            && routes[n].state_ready,
{
}

/// Records are never read from a ghost that folds records into groups,
/// computes aggregates or embeds only some fields.
pub proof fn law_record_plan_serves_records(
    routes: Map<Seq<char>, RouteV>,
    q: PlanQuery,
    r: ScanSourceV,
)
    requires
        planned(routes, q, r),
    ensures
        r matches ScanSourceV::GhostRecords(n) ==> serves_records(routes[n]),
{
}

/// Precomputed aggregates are read only for an aggregate query, from a ghost
/// that has aggregates, groups as the query does and covers every predicate. Where
/// the query's predicate is no conjunction, it is the ghost's own.
pub proof fn law_aggregate_plan_covers(
    routes: Map<Seq<char>, RouteV>,
    q: PlanQuery,
    r: ScanSourceV,
)
    requires
        planned(routes, q, r),
    ensures
        r matches ScanSourceV::GhostPreComputed(n) ==> q.has_aggregates
            && routes[n].has_aggregates && routes[n].group_fields == q.group_by && whole_predicate(
            routes[n],
            q.query,
        ) && forall|i: int|
            0 <= i < q.filters.len() ==> covered(routes[n], #[trigger] q.filters[i]),
{
}

/// Whether `p` is among `ps`.
fn is_among(p: &(String, FilterOp, Value), ps: &[(String, FilterOp, Value)]) -> (r: bool)
    ensures
        r == among(record::predicate_view(*p), record::predicates_view(ps@)),
{
    let ghost v = record::predicates_view(ps@);
    let mut i: usize = 0;
    while i < ps.len()
        invariant
            i <= ps@.len(),
            v == record::predicates_view(ps@),
            forall|j: int|
                0 <= j < i ==> !same_predicate(record::predicate_view(*p), #[trigger] v[j]),
        decreases ps@.len() - i,
    {
        let q = &ps[i];
        assert(v[i as int] == record::predicate_view(*q));
        if bytes::str_equal(p.0.as_str(), q.0.as_str()) && p.1 == q.1 && value::values_equal(
            &p.2,
            &q.2,
        ) {
            assert(same_predicate(record::predicate_view(*p), v[i as int]));
            return true;
        }
        i = i + 1;
    }
    false
}

impl GhostRoutingMeta {
    /// Whether every record that the query selects is a member.
    #[verifier::loop_isolation(false)]
    fn is_relevant(
        &self,
        filters: &[(String, FilterOp, Value)],
        query: Option<&FilterExpr>,
    ) -> (r: bool)
        ensures
            r == relevant(
                self@,
                record::predicates_view(filters@),
                match query {
                    Some(q) => Some(q@),
                    None => None,
                },
            ),
    {
        if !self.state_ready {
            return false;
        }
        if let Some(q) = query {
            if ast::exprs_equal(&self.filter, q) {
                return true;
            }
        }
        if filter::as_flat_and(&self.filter).is_none() {
            return false;
        }
        let ghost mine = self@.filter_fields;
        let mut i: usize = 0;
        while i < self.filter_fields.len()
            invariant
                i <= self.filter_fields@.len(),
                mine == record::predicates_view(self.filter_fields@),
                forall|j: int|
                    0 <= j < i ==> among(#[trigger] mine[j], record::predicates_view(filters@)),
            decreases self.filter_fields@.len() - i,
        {
            assert(mine[i as int] == record::predicate_view(self.filter_fields@[i as int]));
            if !is_among(&self.filter_fields[i], filters) {
                return false;
            }
            i = i + 1;
        }
        true
    }

    /// Whether the precomputed aggregates answer an aggregate query.
    fn does_precompute(
        &self,
        filters: &[(String, FilterOp, Value)],
        group_by: &[String],
        query: Option<&FilterExpr>,
    ) -> (r: bool)
        ensures
            r == precomputes(
                self@,
                record::predicates_view(filters@),
                text::names(group_by@),
                match query {
                    Some(q) => Some(q@),
                    None => None,
                },
            ),
    {
        if !self.has_aggregates || !text::names_equal(self.group_fields.as_slice(), group_by) {
            return false;
        }
        if let Some(e) = query {
            if filter::as_flat_and(e).is_none() && !ast::exprs_equal(&self.filter, e) {
                return false;
            }
        }
        let ghost q = record::predicates_view(filters@);
        let mut i: usize = 0;
        while i < filters.len()
            invariant
                i <= filters@.len(),
                q == record::predicates_view(filters@),
                forall|j: int| 0 <= j < i ==> covered(self@, #[trigger] q[j]),
            decreases filters@.len() - i,
        {
            let p = &filters[i];
            assert(q[i as int] == record::predicate_view(*p));
            if !is_among(p, self.filter_fields.as_slice()) && !(p.1 == FilterOp::Eq
                && text::names_contain(self.group_fields.as_slice(), p.0.as_str())) {
                assert(!covered(self@, q[i as int]));
                return false;
            }
            i = i + 1;
        }
        true
    }

    /// Whether the entries lead to whole records.
    fn does_serve_records(&self) -> (r: bool)
        ensures
            r == serves_records(self@),
    {
        !self.has_aggregates && self.group_fields.is_empty() && !self.has_projection
    }
}

/// Decides whether a scan reads the primary keyspace or a ghost of its lobe.
pub struct GhostRouter {
    ghosts: SortedMap<GhostRoutingMeta>,
    writes: u64,
}

impl GhostRouter {
    /// What the router knows of each ghost.
    pub closed spec fn routes(&self) -> Map<Seq<char>, RouteV> {
        self.ghosts@.map_values(|m: GhostRoutingMeta| m@)
    }

    /// The writes counted so far.
    pub closed spec fn counted(&self) -> u64 {
        self.writes
    }

    /// A router without ghosts.
    pub fn new() -> (r: Self)
        ensures
            r.routes() == Map::<Seq<char>, RouteV>::empty(),
            r.counted() == 0,
    {
        let r = GhostRouter { ghosts: SortedMap::new(), writes: 0 };
        assert(r.routes() =~= Map::<Seq<char>, RouteV>::empty());
        r
    }

    /// Registers a ghost, ready, under the flat conditions of its predicate.
    /// Until [`GhostRouter::set_filter`] its predicate is the empty
    /// conjunction, and until [`GhostRouter::set_aggregate_sig`] it
    /// precomputes no metric.
    pub fn register_ghost(
        &mut self,
        name: &str,
        filter_fields: Vec<(String, FilterOp, Value)>,
        order_by_field: String,
        sort_inverted: bool,
        has_aggregates: bool,
        group_fields: Vec<String>,
    )
        ensures
            final(self).counted() == old(self).counted(),
            final(self).routes() == old(self).routes().insert(
                name@,
                (RouteV {
                    filter_fields: record::predicates_view(filter_fields@),
                    filter: FilterExprV::And(Seq::empty()),
                    filter_desc: None,
                    order_by_field: order_by_field@,
                    sort_inverted,
                    has_aggregates,
                    group_fields: text::names(group_fields@),
                    aggregate_sig: Seq::empty(),
                    state_ready: true,
                    has_projection: false,
                }),
            ),
    {
        let empty: Vec<FilterExpr> = Vec::new();
        let sig: Vec<String> = Vec::new();
        assert(ast::exprs_view(empty@) =~= Seq::<FilterExprV>::empty());
        assert(text::names(sig@) =~= Seq::<Seq<char>>::empty());
        let meta = GhostRoutingMeta {
            filter_fields,
            filter: FilterExpr::And(empty),
            filter_desc: None,
            order_by_field,
            sort_inverted,
            has_aggregates,
            group_fields,
            aggregate_sig: sig,
            state_ready: true,
            has_projection: false,
        };
        let ghost before = self.ghosts@;
        self.ghosts.insert(name.to_owned(), meta);
        assert(self.routes() =~= old(self).routes().insert(name@, meta@));
    }

    /// Takes the entry of `name` out.
    fn take_entry(&mut self, name: &str) -> (r: Option<GhostRoutingMeta>)
        ensures
            final(self).counted() == old(self).counted(),
            final(self).routes() == old(self).routes().remove(name@),
            match r {
                Some(m) => old(self).routes().contains_key(name@) && m@ == old(
                    self,
                ).routes()[name@],
                None => !old(self).routes().contains_key(name@) && final(self).routes() == old(
                    self,
                ).routes(),
            },
    {
        let r = self.ghosts.remove(name);
        assert(self.routes() =~= old(self).routes().remove(name@));
        proof {
            if r is None {
                assert(self.routes() =~= old(self).routes());
            }
        }
        r
    }

    /// Puts an entry back under `name`.
    fn put_entry(&mut self, name: &str, meta: GhostRoutingMeta)
        ensures
            final(self).counted() == old(self).counted(),
            final(self).routes() == old(self).routes().insert(name@, meta@),
    {
        self.ghosts.insert(name.to_owned(), meta);
        assert(self.routes() =~= old(self).routes().insert(name@, meta@));
    }

    /// Sets the membership predicate of a registered ghost.
    pub fn set_filter(&mut self, name: &str, filter: FilterExpr)
        ensures
            final(self).counted() == old(self).counted(),
            final(self).routes() == if old(self).routes().contains_key(name@) {
                old(self).routes().insert(
                    name@,
                    (RouteV { filter: filter@, ..old(self).routes()[name@] }),
                )
            } else {
                old(self).routes()
            },
    {
        if let Some(m) = self.take_entry(name) {
            let mut m = m;
            m.filter = filter;
            self.put_entry(name, m);
            assert(self.routes() =~= old(self).routes().insert(name@, m@));
        }
    }

    /// Says whether a registered ghost embeds only some fields.
    pub fn set_has_projection(&mut self, name: &str, has_projection: bool)
        ensures
            final(self).counted() == old(self).counted(),
            final(self).routes() == if old(self).routes().contains_key(name@) {
                old(self).routes().insert(
                    name@,
                    (RouteV { has_projection, ..old(self).routes()[name@] }),
                )
            } else {
                old(self).routes()
            },
    {
        if let Some(m) = self.take_entry(name) {
            let mut m = m;
            m.has_projection = has_projection;
            self.put_entry(name, m);
            assert(self.routes() =~= old(self).routes().insert(name@, m@));
        }
    }

    /// Sets the metric signatures of a registered ghost.
    pub fn set_aggregate_sig(&mut self, name: &str, sig: Vec<String>)
        ensures
            final(self).counted() == old(self).counted(),
            final(self).routes() == if old(self).routes().contains_key(name@) {
                old(self).routes().insert(
                    name@,
                    (RouteV { aggregate_sig: text::names(sig@), ..old(self).routes()[name@] }),
                )
            } else {
                old(self).routes()
            },
    {
        if let Some(m) = self.take_entry(name) {
            let mut m = m;
            m.aggregate_sig = sig;
            self.put_entry(name, m);
            assert(self.routes() =~= old(self).routes().insert(name@, m@));
        }
    }

    /// Whether the ghost precomputes every metric that the query asks for.
    #[verifier::loop_isolation(false)]
    pub fn aggregate_sig_covers(&self, name: &str, query_sig: &[String]) -> (r: bool)
        ensures
            r == (self.routes().contains_key(name@) && forall|i: int|
                0 <= i < query_sig@.len() ==> self.routes()[name@].aggregate_sig.contains(
                    #[trigger] text::names(query_sig@)[i],
                )),
    {
        match self.ghosts.get(name) {
            Some(meta) => {
                let mut i: usize = 0;
                while i < query_sig.len()
                    invariant
                        i <= query_sig@.len(),
                        forall|j: int|
                            0 <= j < i ==> text::names(meta.aggregate_sig@).contains(
                                #[trigger] text::names(query_sig@)[j],
                            ),
                    decreases query_sig@.len() - i,
                {
                    if !text::names_contain(
                        meta.aggregate_sig.as_slice(),
                        query_sig[i].as_str(),
                    ) {
                        assert(text::names(query_sig@)[i as int] == query_sig@[i as int]@);
                        return false;
                    }
                    i = i + 1;
                }
                true
            },
            None => false,
        }
    }

    /// Sets the scan pattern of a registered ghost.
    pub fn set_filter_desc(&mut self, name: &str, desc: String)
        ensures
            final(self).counted() == old(self).counted(),
            final(self).routes() == if old(self).routes().contains_key(name@) {
                old(self).routes().insert(
                    name@,
                    (RouteV { filter_desc: Some(desc@), ..old(self).routes()[name@] }),
                )
            } else {
                old(self).routes()
            },
    {
        if let Some(m) = self.take_entry(name) {
            let mut m = m;
            m.filter_desc = Some(desc);
            self.put_entry(name, m);
            assert(self.routes() =~= old(self).routes().insert(name@, m@));
        }
    }

    /// The scan pattern of a registered ghost.
    pub fn get_filter_desc(&self, name: &str) -> (r: Option<&str>)
        ensures
            match r {
                Some(d) => self.routes().contains_key(name@) && self.routes()[name@].filter_desc
                    == Some(d@),
                None => !self.routes().contains_key(name@)
                    || self.routes()[name@].filter_desc is None,
            },
    {
        match self.ghosts.get(name) {
            Some(m) => match &m.filter_desc {
                Some(d) => Some(d.as_str()),
                None => None,
            },
            None => None,
        }
    }

    /// Moves a registration to a new name and says whether there was one.
    pub fn rename_ghost(&mut self, old_name: &str, new_name: &str) -> (r: bool)
        ensures
            r == old(self).routes().contains_key(old_name@),
            final(self).counted() == old(self).counted(),
            final(self).routes() == if r {
                old(self).routes().remove(old_name@).insert(
                    new_name@,
                    old(self).routes()[old_name@],
                )
            } else {
                old(self).routes()
            },
    {
        match self.take_entry(old_name) {
            Some(m) => {
                self.put_entry(new_name, m);
                true
            },
            None => false,
        }
    }

    /// Forgets a ghost.
    pub fn unregister_ghost(&mut self, name: &str)
        ensures
            final(self).counted() == old(self).counted(),
            final(self).routes() == old(self).routes().remove(name@),
    {
        self.take_entry(name);
    }

    /// Marks a registered ghost as ready or not.
    pub fn set_ghost_ready(&mut self, name: &str, ready: bool)
        ensures
            final(self).counted() == old(self).counted(),
            final(self).routes() == if old(self).routes().contains_key(name@) {
                old(self).routes().insert(
                    name@,
                    (RouteV { state_ready: ready, ..old(self).routes()[name@] }),
                )
            } else {
                old(self).routes()
            },
    {
        if let Some(m) = self.take_entry(name) {
            let mut m = m;
            m.state_ready = ready;
            self.put_entry(name, m);
            assert(self.routes() =~= old(self).routes().insert(name@, m@));
        }
    }

    /// Counts `n` writes; the counter wraps around.
    pub fn record_writes(&mut self, n: u64)
        ensures
            final(self).routes() == old(self).routes(),
            final(self).counted() == (old(self).counted() + n) % 0x1_0000_0000_0000_0000,
    {
        self.writes = self.writes.wrapping_add(n);
    }

    /// The writes counted so far.
    pub fn total_writes(&self) -> (n: u64)
        ensures
            n == self.counted(),
    {
        self.writes
    }

    /// Restores the write counter.
    pub fn set_total_writes(&mut self, val: u64)
        ensures
            final(self).routes() == old(self).routes(),
            final(self).counted() == val,
    {
        self.writes = val;
    }

    /// Whether any ghost is registered.
    pub fn has_ghosts(&self) -> (r: bool)
        ensures
            r == (self.routes() != Map::<Seq<char>, RouteV>::empty()),
    {
        let r = !self.ghosts.is_empty();
        proof {
            if r {
                if self.routes() == Map::<Seq<char>, RouteV>::empty() {
                    assert(self.ghosts@.dom() =~= self.routes().dom());
                    assert(self.ghosts@ =~= Map::<Seq<char>, GhostRoutingMeta>::empty());
                }
            } else {
                assert(self.routes() =~= Map::<Seq<char>, RouteV>::empty());
            }
        }
        r
    }

    /// Picks the source of a scan. A predicate that pins an anchor reads the
    /// primary keyspace. Else an aggregate query reads the precomputed
    /// aggregates of a ghost that has its groups and covers all its
    /// predicates. Else the records come from a ghost that holds whole
    /// records, in the requested order if there is one, and else from the
    /// primary keyspace.
    pub fn plan_scan(
        &self,
        filters: &[(String, FilterOp, Value)],
        _primary_has_data: bool,
        order_by: Option<(&str, bool)>,
        has_aggregates: bool,
        group_by: &[String],
        has_limit: bool,
        query_filter: Option<&FilterExpr>,
        anchored_fields: Option<&[String]>,
    ) -> (r: ScanSource)
        ensures
            planned(
                self.routes(),
                plan_query(
                    filters,
                    order_by,
                    has_aggregates,
                    group_by,
                    has_limit,
                    query_filter,
                    anchored_fields,
                ),
                r@,
            ),
    {
        let ghost q = plan_query(
            filters,
            order_by,
            has_aggregates,
            group_by,
            has_limit,
            query_filter,
            anchored_fields,
        );
        if let Some(set) = anchored_fields {
            if pins_any(filters, set) {
                return ScanSource::Primary;
            }
        }
        proof {
            use_type_invariant(&self.ghosts);
            self.ghosts.lemma_listed();
        }
        let ghost listed = self.ghosts.listed();
        assert(!pins_anchor(q.filters, q.anchored));
        if has_aggregates {
            let mut best: Option<usize> = None;
            let mut i: usize = 0;
            while i < self.ghosts.len()
                invariant
                    i <= listed.len(),
                    listed == self.ghosts.listed(),
                    q == plan_query(
                        filters,
                        order_by,
                        has_aggregates,
                        group_by,
                        has_limit,
                        query_filter,
                        anchored_fields,
                    ),
                    has_aggregates,
                    match best {
                        Some(b) => b < i && aggregate_candidate(listed[b as int].1@, q) && forall|
                            j: int,
                        |
                            #![trigger listed[j]]
                            0 <= j < i && aggregate_candidate(listed[j].1@, q) ==> (
                            listed[j].1@.filter_fields.len() < listed[b as int].1@.filter_fields.len()
                                || (listed[j].1@.filter_fields.len()
                                == listed[b as int].1@.filter_fields.len() && b <= j)),
                        None => forall|j: int|
                            #![trigger listed[j]]
                            0 <= j < i ==> !aggregate_candidate(listed[j].1@, q),
                    },
                decreases listed.len() - i,
            {
                let meta = self.ghosts.value_at(i);
                if meta.is_relevant(filters, query_filter) && meta.does_precompute(
                    filters,
                    group_by,
                    query_filter,
                ) {
                    let better = match best {
                        Some(b) => meta.filter_fields.len()
                            > self.ghosts.value_at(b).filter_fields.len(),
                        None => true,
                    };
                    if better {
                        best = Some(i);
                    }
                }
                i = i + 1;
            }
            if let Some(b) = best {
                let name = self.ghosts.name_at(b).clone();
                proof {
                    lemma_best_by_place(listed, self.routes(), q, b as int);
                }
                return ScanSource::GhostPreComputed(name);
            }
            proof {
                if some_aggregate_candidate(self.routes(), q) {
                    let m = choose|m: Seq<char>| #[trigger]
                        self.routes().contains_key(m) && aggregate_candidate(self.routes()[m], q);
                    let j = choose|j: int| sorted_map::holds_at(listed, m, j);
                    sorted_map::lemma_entry_in_map(listed, j);
                    assert(aggregate_candidate(listed[j].1@, q));
                }
            }
        }
        assert(!some_aggregate_candidate(self.routes(), q));
        let mut i: usize = 0;
        while i < self.ghosts.len()
            invariant
                i <= listed.len(),
                listed == self.ghosts.listed(),
                self.ghosts@ == sorted_map::entries_map(listed),
                sorted_map::names_increase(listed),
                q == plan_query(
                    filters,
                    order_by,
                    has_aggregates,
                    group_by,
                    has_limit,
                    query_filter,
                    anchored_fields,
                ),
                !pins_anchor(q.filters, q.anchored),
                !some_aggregate_candidate(self.routes(), q),
                forall|j: int|
                    #![trigger listed[j]]
                    0 <= j < i ==> !record_candidate(listed[j].1@, q),
            decreases listed.len() - i,
        {
            let meta = self.ghosts.value_at(i);
            if meta.is_relevant(filters, query_filter) && meta.does_serve_records() {
                let fits = match order_by {
                    Some((field, descending)) => has_limit && bytes::str_equal(
                        meta.order_by_field.as_str(),
                        field,
                    ) && meta.sort_inverted == descending,
                    None => true,
                };
                if fits {
                    let name = self.ghosts.name_at(i).clone();
                    proof {
                        lemma_first_by_place(listed, self.routes(), q, i as int);
                    }
                    return ScanSource::GhostRecords(name);
                }
            }
            i = i + 1;
        }
        proof {
            if some_record_candidate(self.routes(), q) {
                let m = choose|m: Seq<char>| #[trigger]
                    self.routes().contains_key(m) && record_candidate(self.routes()[m], q);
                let j = choose|j: int| sorted_map::holds_at(listed, m, j);
                sorted_map::lemma_entry_in_map(listed, j);
                assert(record_candidate(listed[j].1@, q));
            }
        }
        ScanSource::Primary
    }
}

impl Default for GhostRouter {
    fn default() -> (r: Self)
        ensures
            r.routes() == Map::<Seq<char>, RouteV>::empty(),
            r.counted() == 0,
    {
        GhostRouter::new()
    }
}

/// What [`GhostRouter::plan_scan`] is asked for.
pub open spec fn plan_query(
    filters: &[(String, FilterOp, Value)],
    order_by: Option<(&str, bool)>,
    has_aggregates: bool,
    group_by: &[String],
    has_limit: bool,
    query_filter: Option<&FilterExpr>,
    anchored_fields: Option<&[String]>,
) -> PlanQuery {
    PlanQuery {
        filters: record::predicates_view(filters@),
        order_by: match order_by {
            Some((f, d)) => Some((f@, d)),
            None => None,
        },
        has_aggregates,
        group_by: text::names(group_by@),
        has_limit,
        query: match query_filter {
            Some(e) => Some(e@),
            None => None,
        },
        anchored: match anchored_fields {
            Some(a) => Some(text::names(a@)),
            None => None,
        },
    }
}

/// Whether some predicate pins a field of the set.
fn pins_any(filters: &[(String, FilterOp, Value)], set: &[String]) -> (r: bool)
    ensures
        r == pins_anchor(record::predicates_view(filters@), Some(text::names(set@))),
{
    let ghost v = record::predicates_view(filters@);
    let mut i: usize = 0;
    while i < filters.len()
        invariant
            i <= filters@.len(),
            v == record::predicates_view(filters@),
            forall|j: int|
                0 <= j < i ==> !((#[trigger] v[j]).1 == FilterOp::Eq && text::names(set@).contains(
                    v[j].0,
                )),
        decreases filters@.len() - i,
    {
        let p = &filters[i];
        assert(v[i as int] == record::predicate_view(*p));
        if p.1 == FilterOp::Eq && text::names_contain(set, p.0.as_str()) {
            return true;
        }
        i = i + 1;
    }
    false
}

/// The best candidate by place is the best by name.
proof fn lemma_best_by_place(
    listed: Seq<(String, GhostRoutingMeta)>,
    routes: Map<Seq<char>, RouteV>,
    q: PlanQuery,
    b: int,
)
    requires
        sorted_map::names_increase(listed),
        routes == sorted_map::entries_map(listed).map_values(|m: GhostRoutingMeta| m@),
        0 <= b < listed.len(),
        aggregate_candidate(listed[b].1@, q),
        forall|j: int|
            #![trigger listed[j]]
            0 <= j < listed.len() && aggregate_candidate(listed[j].1@, q) ==> (
            listed[j].1@.filter_fields.len() < listed[b].1@.filter_fields.len() || (
            listed[j].1@.filter_fields.len() == listed[b].1@.filter_fields.len() && b <= j)),
    ensures
        best_aggregate_candidate(routes, q, listed[b].0@),
        some_aggregate_candidate(routes, q),
{
    let name = listed[b].0@;
    sorted_map::lemma_entry_in_map(listed, b);
    assert(routes.contains_key(name));
    assert forall|m: Seq<char>| #[trigger]
        routes.contains_key(m) && aggregate_candidate(routes[m], q) implies m == name
        || routes[m].filter_fields.len() < routes[name].filter_fields.len() || (
    routes[m].filter_fields.len() == routes[name].filter_fields.len() && bytes::str_lt(
        name,
        m,
    )) by {
        let j = choose|j: int| sorted_map::holds_at(listed, m, j);
        sorted_map::lemma_entry_in_map(listed, j);
        assert(aggregate_candidate(listed[j].1@, q));
        if b < j {
            assert(bytes::str_lt(listed[b].0@, listed[j].0@));
        }
    }
}

/// The first candidate by place is the first by name.
proof fn lemma_first_by_place(
    listed: Seq<(String, GhostRoutingMeta)>,
    routes: Map<Seq<char>, RouteV>,
    q: PlanQuery,
    b: int,
)
    requires
        sorted_map::names_increase(listed),
        routes == sorted_map::entries_map(listed).map_values(|m: GhostRoutingMeta| m@),
        0 <= b < listed.len(),
        record_candidate(listed[b].1@, q),
        forall|j: int| #![trigger listed[j]] 0 <= j < b ==> !record_candidate(listed[j].1@, q),
    ensures
        first_record_candidate(routes, q, listed[b].0@),
        some_record_candidate(routes, q),
{
    let name = listed[b].0@;
    sorted_map::lemma_entry_in_map(listed, b);
    assert(routes.contains_key(name));
    assert forall|m: Seq<char>| #[trigger]
        routes.contains_key(m) && record_candidate(routes[m], q) implies m == name
        || bytes::str_lt(name, m) by {
        let j = choose|j: int| sorted_map::holds_at(listed, m, j);
        sorted_map::lemma_entry_in_map(listed, j);
        assert(record_candidate(listed[j].1@, q));
        if b < j {
            assert(bytes::str_lt(listed[b].0@, listed[j].0@));
        }
    }
}

/// Conditions that are written alike are true alike.
pub open spec fn reads_alike(truth: spec_fn((Seq<char>, FilterOp, ValueV)) -> bool) -> bool {
    &&& forall|f: ast::FilterV, g: ast::FilterV|
        #![trigger filter::core_predicate(f), filter::core_predicate(g)]
        f.field == g.field && f.op == g.op && ast::literal_eq(f.value, g.value) ==> truth(
            filter::core_predicate(f),
        ) == truth(filter::core_predicate(g))
    &&& forall|p: (Seq<char>, FilterOp, ValueV), q: (Seq<char>, FilterOp, ValueV)|
        #![trigger truth(p), truth(q)]
        p.0 == q.0 && p.1 == q.1 && value::value_eq(p.2, q.2) ==> truth(p) == truth(q)
}

/// A ghost that a query is led to has every record that the query selects as a member:
/// where the query's conditions hold, the ghost's predicate holds. It is ready.
pub proof fn law_ghost_has_every_record_selected(
    r: RouteV,
    filters: Seq<(Seq<char>, FilterOp, ValueV)>,
    query: Option<FilterExprV>,
    truth: spec_fn((Seq<char>, FilterOp, ValueV)) -> bool,
)
    requires
        relevant(r, filters, query),
        ast::is_flat(r.filter) ==> r.filter_fields == filter::core_predicates(
            ast::conditions(r.filter),
        ),
        reads_alike(truth),
        forall|i: int| 0 <= i < filters.len() ==> truth(#[trigger] filters[i]),
        query matches Some(q) ==> filter::holds(filter::core_tree(q), truth),
    ensures
        r.state_ready,
        filter::holds(filter::core_tree(r.filter), truth),
{
    if query matches Some(q) && ast::expr_eq(r.filter, q) {
        lemma_equal_hold_alike(r.filter, query->Some_0, truth);
    } else {
        let conditions = ast::conditions(r.filter);
        filter::law_flat_is_all(r.filter, truth);
        assert forall|i: int| 0 <= i < conditions.len() implies truth(
            filter::core_predicate(#[trigger] conditions[i]),
        ) by {
            let p = r.filter_fields[i];
            assert(p == filter::core_predicate(conditions[i]));
            assert(among(p, filters));
            let k = choose|k: int| 0 <= k < filters.len() && same_predicate(p, #[trigger] filters[k]);
            assert(truth(filters[k]));
            assert(truth(p) == truth(filters[k]));
        }
    }
}

proof fn lemma_equal_hold_alike(
    a: FilterExprV,
    b: FilterExprV,
    truth: spec_fn((Seq<char>, FilterOp, ValueV)) -> bool,
)
    requires
        ast::expr_eq(a, b),
        reads_alike(truth),
    ensures
        filter::holds(filter::core_tree(a), truth) == filter::holds(filter::core_tree(b), truth),
    decreases a,
{
    match (a, b) {
        (FilterExprV::Condition(x), FilterExprV::Condition(y)) => {
            let p = filter::core_predicate(x);
            let q = filter::core_predicate(y);
            assert(filter::core_tree(a) == filter::CoreExprV::Leaf(p));
            assert(filter::core_tree(b) == filter::CoreExprV::Leaf(q));
            assert(truth(p) == truth(q));
        },
        (FilterExprV::And(x), FilterExprV::And(y)) => {
            lemma_equal_lists_hold_alike(x, y, truth);
            assert(filter::core_tree(a) == filter::CoreExprV::And(filter::core_trees(x)));
            assert(filter::core_tree(b) == filter::CoreExprV::And(filter::core_trees(y)));
        },
        (FilterExprV::Or(x), FilterExprV::Or(y)) => {
            lemma_equal_lists_hold_alike(x, y, truth);
            assert(filter::core_tree(a) == filter::CoreExprV::Or(filter::core_trees(x)));
            assert(filter::core_tree(b) == filter::CoreExprV::Or(filter::core_trees(y)));
        },
        (FilterExprV::Not(x), FilterExprV::Not(y)) => {
            lemma_equal_hold_alike(*x, *y, truth);
            let p = filter::core_tree(*x);
            let q = filter::core_tree(*y);
            assert(filter::core_tree(a) == filter::CoreExprV::Not(Box::new(p)));
            assert(filter::core_tree(b) == filter::CoreExprV::Not(Box::new(q)));
            assert(filter::holds(filter::CoreExprV::Not(Box::new(p)), truth) == !filter::holds(
                p,
                truth,
            ));
            assert(filter::holds(filter::CoreExprV::Not(Box::new(q)), truth) == !filter::holds(
                q,
                truth,
            ));
        },
        _ => {},
    }
}

proof fn lemma_equal_lists_hold_alike(
    x: Seq<FilterExprV>,
    y: Seq<FilterExprV>,
    truth: spec_fn((Seq<char>, FilterOp, ValueV)) -> bool,
)
    requires
        x.len() == y.len(),
        forall|i: int| 0 <= i < x.len() ==> ast::expr_eq(#[trigger] x[i], y[i]),
        reads_alike(truth),
    ensures
        filter::all_hold(filter::core_trees(x), truth) == filter::all_hold(
            filter::core_trees(y),
            truth,
        ),
        filter::any_holds(filter::core_trees(x), truth) == filter::any_holds(
            filter::core_trees(y),
            truth,
        ),
    decreases x,
{
    let p = filter::core_trees(x);
    let q = filter::core_trees(y);
    assert forall|i: int| 0 <= i < x.len() implies filter::holds(#[trigger] p[i], truth)
        == filter::holds(q[i], truth) by {
        assert(ast::expr_eq(x[i], y[i]));
        lemma_equal_hold_alike(x[i], y[i], truth);
    }
    if filter::all_hold(q, truth) {
        assert forall|i: int| 0 <= i < p.len() implies filter::holds(#[trigger] p[i], truth) by {
            assert(filter::holds(q[i], truth));
        }
    }
    if filter::all_hold(p, truth) {
        assert forall|i: int| 0 <= i < q.len() implies filter::holds(#[trigger] q[i], truth) by {
            assert(filter::holds(p[i], truth));
        }
    }
    if filter::any_holds(p, truth) {
        let i = choose|i: int| 0 <= i < p.len() && filter::holds(#[trigger] p[i], truth);
        assert(filter::holds(q[i], truth));
    }
    if filter::any_holds(q, truth) {
        let i = choose|i: int| 0 <= i < q.len() && filter::holds(#[trigger] q[i], truth);
        assert(filter::holds(p[i], truth));
    }
}

/// Precomputed aggregates are read from a ghost that groups as the query does and that is
/// about the same records: every condition of the query is one of the ghost's, with the
/// same field, operator and value, or an equality on one of its group fields. No other such
/// ghost has more conditions, and none with as many comes before it by name.
pub proof fn law_aggregates_come_from_the_closest_ghost(
    routes: Map<Seq<char>, RouteV>,
    q: PlanQuery,
    n: Seq<char>,
    i: int,
    m: Seq<char>,
)
    requires
        planned(routes, q, ScanSourceV::GhostPreComputed(n)),
        0 <= i < q.filters.len(),
    ensures
        q.has_aggregates,
        routes[n].has_aggregates,
        routes[n].group_fields == q.group_by,
        (q.filters[i].1 is Eq && routes[n].group_fields.contains(q.filters[i].0)) || exists|k: int|
            #![trigger routes[n].filter_fields[k]]
            0 <= k < routes[n].filter_fields.len() && routes[n].filter_fields[k].0
                == q.filters[i].0 && routes[n].filter_fields[k].1 == q.filters[i].1
                && value::value_eq(q.filters[i].2, routes[n].filter_fields[k].2),
        routes.contains_key(m) && aggregate_candidate(routes[m], q)
            ==> routes[m].filter_fields.len() <= routes[n].filter_fields.len(),
        routes.contains_key(m) && aggregate_candidate(routes[m], q) && m != n
            && routes[m].filter_fields.len() == routes[n].filter_fields.len() ==> bytes::str_lt(
            n,
            m,
        ),
{
    assert(best_aggregate_candidate(routes, q, n));
    assert(covered(routes[n], q.filters[i]));
    if !(q.filters[i].1 == FilterOp::Eq && routes[n].group_fields.contains(q.filters[i].0)) {
        let k = choose|k: int|
            0 <= k < routes[n].filter_fields.len() && same_predicate(
                q.filters[i],
                #[trigger] routes[n].filter_fields[k],
            );
        assert(routes[n].filter_fields[k].0 == q.filters[i].0);
    }
}

/// Records are read from a ghost only where its entries lead to whole records, one for each
/// member, and in the order that is asked for, which then has a limit. Where no anchor is
/// pinned and no ghost answers the aggregates, and some ghost can serve the records, one
/// does.
pub proof fn law_records_come_in_the_order_asked(
    routes: Map<Seq<char>, RouteV>,
    q: PlanQuery,
    r: ScanSourceV,
    m: Seq<char>,
)
    requires
        planned(routes, q, r),
    ensures
        r matches ScanSourceV::GhostRecords(n) ==> {
            &&& routes.contains_key(n)
            &&& !routes[n].has_aggregates && routes[n].group_fields.len() == 0
                && !routes[n].has_projection
            &&& q.order_by matches Some(o) ==> q.has_limit && routes[n].order_by_field == o.0
                && routes[n].sort_inverted == o.1
        },
        routes.contains_key(m) && relevant(routes[m], q.filters, q.query) && !routes[m].has_aggregates
            && routes[m].group_fields.len() == 0 && !routes[m].has_projection && q.order_by is None
            && !(exists|i: int|
            0 <= i < q.filters.len() && (#[trigger] q.filters[i]).1 is Eq && q.anchored is Some
                && q.anchored->Some_0.contains(q.filters[i].0)) ==> !(r is Primary),
        (exists|i: int|
            0 <= i < q.filters.len() && (#[trigger] q.filters[i]).1 is Eq && q.anchored is Some
                && q.anchored->Some_0.contains(q.filters[i].0)) ==> r is Primary,
{
    if routes.contains_key(m) && relevant(routes[m], q.filters, q.query)
        && !routes[m].has_aggregates && routes[m].group_fields.len() == 0
        && !routes[m].has_projection && q.order_by is None {
        assert(record_candidate(routes[m], q));
        assert(some_record_candidate(routes, q));
    }
    if exists|i: int|
        0 <= i < q.filters.len() && (#[trigger] q.filters[i]).1 is Eq && q.anchored is Some
            && q.anchored->Some_0.contains(q.filters[i].0) {
        let i = choose|i: int|
            0 <= i < q.filters.len() && (#[trigger] q.filters[i]).1 is Eq && q.anchored is Some
                && q.anchored->Some_0.contains(q.filters[i].0);
        assert(q.filters[i].1 == FilterOp::Eq);
        assert(pins_anchor(q.filters, q.anchored));
    }
}

} // verus!
