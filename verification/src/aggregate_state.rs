//! The metrics that a ghost precomputes and the state of an aggregate.

use crate::ast::{FilterExpr, FilterExprV};
use crate::filter;
use crate::sorted_map::SortedMap;
use vstd::prelude::*;

verus! {

/// What a metric computes.
#[derive(Clone, Copy, Debug, PartialEq, Eq, Structural)]
pub enum AggOp {
    Count,
    Sum,
    Avg,
    Min,
    Max,
}

/// One metric: what it computes, of which field, under which label, and over
/// which records.
#[derive(Debug)]
pub struct Metric {
    pub field: String,
    pub op: AggOp,
    pub label: String,
    pub filter: Option<FilterExpr>,
}

/// What a [`Metric`] says.
pub struct MetricV {
    pub field: Seq<char>,
    pub op: AggOp,
    pub label: Seq<char>,
    pub filter: Option<FilterExprV>,
}

impl View for Metric {
    type V = MetricV;

    open spec fn view(&self) -> MetricV {
        MetricV {
            field: self.field@,
            op: self.op,
            label: self.label@,
            filter: filter::opt_expr_view(self.filter),
        }
    }
}

/// What metrics say.
pub open spec fn metrics_view(s: Seq<Metric>) -> Seq<MetricV> {
    s.map_values(|m: Metric| m@)
}

/// A copy of an optional predicate.
pub fn clone_opt_expr(e: &Option<FilterExpr>) -> (r: Option<FilterExpr>)
    ensures
        filter::opt_expr_view(r) == filter::opt_expr_view(*e),
{
    match e {
        Some(x) => Some(x.clone_expr()),
        None => None,
    }
}

impl Metric {
    /// A metric.
    pub fn new(field: String, op: AggOp, label: String, filter: Option<FilterExpr>) -> (r: Metric)
        ensures
            r@ == (MetricV {
                field: field@,
                op,
                label: label@,
                filter: filter::opt_expr_view(filter),
            }),
    {
        Metric { field, op, label, filter }
    }

    /// A copy.
    pub fn clone_metric(&self) -> (r: Metric)
        ensures
            r@ == self@,
    {
        Metric {
            field: self.field.clone(),
            op: self.op,
            label: self.label.clone(),
            filter: clone_opt_expr(&self.filter),
        }
    }
}

/// A copy of metrics.
pub fn clone_metrics(s: &Vec<Metric>) -> (r: Vec<Metric>)
    ensures
        metrics_view(r@) == metrics_view(s@),
{
    let mut r: Vec<Metric> = Vec::new();
    let mut i: usize = 0;
    while i < s.len()
        invariant
            i <= s@.len(),
            r@.len() == i,
            forall|j: int| 0 <= j < i ==> (#[trigger] r@[j])@ == s@[j]@,
        decreases s@.len() - i,
    {
        r.push(s[i].clone_metric());
        i = i + 1;
    }
    assert(metrics_view(r@) =~= metrics_view(s@));
    r
}

/// The state of an aggregate over some records: how many, whether a part of it
/// may be stale, and what only the aggregate functions read.
#[derive(Debug, PartialEq, Eq)]
pub struct AggregateState {
    pub count: i64,
    pub dirty: bool,
    pub body: Vec<u8>,
}

/// What an [`AggregateState`] stands for.
pub struct AggregateStateV {
    pub count: i64,
    pub dirty: bool,
    pub body: Seq<u8>,
}

impl View for AggregateState {
    type V = AggregateStateV;

    open spec fn view(&self) -> AggregateStateV {
        AggregateStateV { count: self.count, dirty: self.dirty, body: self.body@ }
    }
}

/// The state over no record.
pub open spec fn no_records() -> AggregateStateV {
    AggregateStateV { count: 0, dirty: false, body: Seq::empty() }
}

impl Default for AggregateState {
    fn default() -> (r: Self)
        ensures
            r@ == no_records(),
    {
        let r = AggregateState { count: 0, dirty: false, body: Vec::new() };
        assert(r.body@ =~= Seq::<u8>::empty());
        r
    }
}

impl AggregateState {
    /// A copy.
    pub fn clone_state(&self) -> (r: AggregateState)
        ensures
            r@ == self@,
    {
        AggregateState { count: self.count, dirty: self.dirty, body: self.body.clone() }
    }
}

/// The states of the groups, by group key.
pub type Summaries = SortedMap<AggregateState>;

/// What the states of the groups stand for.
pub open spec fn summaries_view(m: Map<Seq<char>, AggregateState>) -> Map<
    Seq<char>,
    AggregateStateV,
> {
    m.map_values(|s: AggregateState| s@)
}

/// A copy of the states of the groups.
pub fn clone_summaries(m: &Summaries) -> (r: Summaries)
    ensures
        summaries_view(r@) == summaries_view(m@),
{
    let f = |s: &AggregateState| -> (t: AggregateState)
        ensures
            t@ == s@,
        { s.clone_state() };
    let r = m.map_with(&f);
    proof {
        assert forall|k: Seq<char>| #[trigger] m@.contains_key(k) implies r@[k]@ == m@[k]@ by {
            assert(f.ensures((&m@[k],), r@[k]));
        }
        assert(summaries_view(r@).dom() =~= summaries_view(m@).dom());
        assert(summaries_view(r@) =~= summaries_view(m@));
    }
    r
}

} // verus!
