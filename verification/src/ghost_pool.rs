//! Building ghosts for hot scan patterns: how many workers do it, that each
//! pattern is built once at a time, and what becomes of a build.

use crate::aggregate;
use crate::aggregate::AggregateFunc;
use crate::aggregate_state;
use crate::aggregate_state::{AggOp, Metric, MetricV};
use crate::ast::{FilterExprV, FilterV};
use crate::error::XyzError;
use crate::filter;
use crate::ghost_build::{GhostSpec, GhostSpecV};
use crate::ghost_meta;
use crate::ghost_meta::{GhostMetaV, GhostType};
use crate::ghost_reap::StoreV;
use crate::ghost_router::{GhostRouter, RouteV};
use crate::ghost_store::GhostLobeManager;
use crate::scan_telemetry::{AutoGhostCandidate, CandidateV};
use crate::text;
use dashmap::DashSet;
use vstd::prelude::*;

verus! {

/// How many ghosts for hot patterns a lobe has at most.
pub const MAX_EPHEMERAL: usize = 20;

/// How long a ghost for a hot pattern lives without use, in seconds.
pub const EPHEMERAL_TTL_SECONDS: u64 = ghost_meta::EPHEMERAL_TTL_SECONDS;

/// How many jobs wait per worker.
pub const BACKLOG_PER_WORKER: usize = 4;

// ---------------------------------------------------------------------------
// The pool
// ---------------------------------------------------------------------------
/// The size of the pool that builds ghosts.
#[derive(Clone, Copy, Debug, PartialEq, Eq, Structural)]
pub struct GhostCreatorPool {
    workers: usize,
    backlog: usize,
}

impl GhostCreatorPool {
    /// How many workers there are.
    pub closed spec fn workers(&self) -> usize {
        self.workers
    }

    /// How many jobs can wait.
    pub closed spec fn backlog(&self) -> usize {
        self.backlog
    }

    /// A pool with as many workers, and one at least.
    pub fn new(n_workers: usize) -> (r: Self)
        requires
            n_workers * BACKLOG_PER_WORKER <= usize::MAX,
        ensures
            r.workers() == if n_workers < 1 {
                1
            } else {
                n_workers
            },
            r.backlog() == r.workers() * BACKLOG_PER_WORKER,
            r.backlog() == 4 * r.workers(),
    {
        let workers: usize = if n_workers < 1 {
            1
        } else {
            n_workers
        };
        GhostCreatorPool { workers, backlog: workers * BACKLOG_PER_WORKER }
    }

    /// How many workers there are for a number of processors: half as many,
    /// between one and four. A number that is not known counts as one.
    pub fn default_size(cpus: Option<usize>) -> (n: usize)
        ensures
            ({
                let half = (if cpus is Some {
                    cpus->Some_0
                } else {
                    1
                }) / 2;
                n == if half < 1 {
                    1
                } else if half > 4 {
                    4
                } else {
                    half
                }
            }),
    {
        let half: usize = match cpus {
            Some(n) => n / 2,
            None => 0,
        };
        if half < 1 {
            1
        } else if half > 4 {
            4
        } else {
            half
        }
    }

    /// How many workers there are.
    pub fn worker_count(&self) -> (n: usize)
        ensures
            n == self.workers(),
    {
        self.workers
    }

    /// How many jobs can wait.
    pub fn capacity(&self) -> (n: usize)
        ensures
            n == self.backlog(),
    {
        self.backlog
    }
}

// ---------------------------------------------------------------------------
// One build at a time for each pattern
// ---------------------------------------------------------------------------
/// `dashmap::DashSet`, a hash set that threads can share.
#[verifier::external_type_specification]
#[verifier::external_body]
#[verifier::reject_recursive_types(K)]
#[verifier::reject_recursive_types(S)]
pub struct ExDashSet<K, S>(dashmap::DashSet<K, S>);

/// What a set of hashes holds.
pub uninterp spec fn members(s: DashSet<u64>) -> Set<u64>;

/// `DashSet::new`: the set holds nothing.
#[verifier::external_body]
fn new_set() -> (s: DashSet<u64>)
    ensures
        members(s) == Set::<u64>::empty(),
{
    DashSet::new()
}

/// `DashSet::insert`: the set holds the hash, and says whether it did not before.
#[verifier::external_body]
fn add_member(s: &mut DashSet<u64>, hash: u64) -> (r: bool)
    ensures
        members(*final(s)) == members(*old(s)).insert(hash),
        r == !members(*old(s)).contains(hash),
{
    s.insert(hash)
}

/// `DashSet::remove`: the set does not hold the hash, which is handed out if it
/// was there.
#[verifier::external_body]
fn take_member(s: &mut DashSet<u64>, hash: u64) -> (r: Option<u64>)
    ensures
        members(*final(s)) == members(*old(s)).remove(hash),
        r == (if members(*old(s)).contains(hash) { Some(hash) } else { None }),
{
    s.remove(&hash)
}

/// `DashSet::contains`: whether the set holds the hash.
#[verifier::external_body]
fn has_member(s: &DashSet<u64>, hash: u64) -> (r: bool)
    ensures
        r == members(*s).contains(hash),
{
    s.contains(&hash)
}

/// The hashes of the patterns whose ghosts are being built.
pub struct Inflight {
    hashes: DashSet<u64>,
}

impl View for Inflight {
    type V = Set<u64>;

    closed spec fn view(&self) -> Set<u64> {
        members(self.hashes)
    }
}

impl Inflight {
    /// Nothing is being built.
    pub fn new() -> (r: Self)
        ensures
            r@ == Set::<u64>::empty(),
    {
        Inflight { hashes: new_set() }
    }

    /// Marks a pattern as being built; says whether it was not before.
    pub fn insert(&mut self, hash: u64) -> (r: bool)
        ensures
            final(self)@ == old(self)@.insert(hash),
            r == !old(self)@.contains(hash),
    {
        add_member(&mut self.hashes, hash)
    }

    /// Whether a pattern is being built.
    pub fn contains(&self, hash: u64) -> (r: bool)
        ensures
            r == self@.contains(hash),
    {
        has_member(&self.hashes, hash)
    }

    /// Starts a build: a guard, unless the pattern is being built.
    pub fn enter(&mut self, hash: u64) -> (r: Option<SingleflightGuard>)
        ensures
            final(self)@ == old(self)@.insert(hash),
            match r {
                Some(g) => !old(self)@.contains(hash) && g.guarded() == hash,
                None => old(self)@.contains(hash),
            },
    {
        if self.insert(hash) {
            Some(SingleflightGuard::new(hash))
        } else {
            None
        }
    }
}

/// Says that the ghost of a pattern is being built.
pub struct SingleflightGuard {
    hash: u64,
}

impl SingleflightGuard {
    /// The hash of the pattern.
    pub closed spec fn guarded(&self) -> u64 {
        self.hash
    }

    /// A guard for a pattern that is marked as being built.
    pub fn new(hash: u64) -> (r: Self)
        ensures
            r.guarded() == hash,
    {
        SingleflightGuard { hash }
    }

    /// Ends the build.
    pub fn release(self, inflight: &mut Inflight)
        ensures
            final(inflight)@ == old(inflight)@.remove(self.guarded()),
    {
        let _hash: Option<u64> = take_member(&mut inflight.hashes, self.hash);
    }
}

/// Once a build has ended, the pattern can be built again, and no other pattern
/// is affected.
pub proof fn law_released_pattern_can_reenter(inflight: Set<u64>, hash: u64, other: u64)
    requires
        other != hash,
    ensures
        !inflight.insert(hash).remove(hash).contains(hash),
        inflight.insert(hash).remove(hash).contains(other) == inflight.contains(other),
{
}

// ---------------------------------------------------------------------------
// Jobs
// ---------------------------------------------------------------------------
/// The metrics of a ghost for a pattern: a count and a sum of each field that was
/// aggregated, or none.
pub open spec fn metrics_for(fields: Seq<Seq<char>>) -> Seq<MetricV> {
    if fields.len() == 0 {
        Seq::empty()
    } else {
        seq![
            MetricV { field: Seq::empty(), op: AggOp::Count, label: "count"@, filter: None },
        ] + Seq::new(
            fields.len(),
            |i: int|
                MetricV {
                    field: fields[i],
                    op: AggOp::Sum,
                    label: "sum("@ + fields[i] + ")"@,
                    filter: None,
                },
        )
    }
}

/// The metrics of a ghost for a pattern.
pub fn auto_metrics(fields: &[String]) -> (r: Vec<Metric>)
    ensures
        aggregate_state::metrics_view(r@) == metrics_for(text::names(fields@)),
{
    let ghost names = text::names(fields@);
    let mut r: Vec<Metric> = Vec::new();
    if fields.len() == 0 {
        assert(aggregate_state::metrics_view(r@) =~= Seq::empty());
        return r;
    }
    let none = String::new();
    assert(none@ =~= Seq::empty());
    r.push(Metric::new(none, AggOp::Count, aggregate::canonical_label(&AggregateFunc::Count), None));
    let mut i: usize = 0;
    while i < fields.len()
        invariant
            i <= fields@.len(),
            names == text::names(fields@),
            fields@.len() > 0,
            r@.len() == i + 1,
            forall|j: int| 0 <= j <= i ==> (#[trigger] r@[j])@ == metrics_for(names)[j],
        decreases fields@.len() - i,
    {
        let label = aggregate::canonical_label(&AggregateFunc::Sum(fields[i].clone()));
        r.push(Metric::new(fields[i].clone(), AggOp::Sum, label, None));
        i = i + 1;
    }
    assert(aggregate_state::metrics_view(r@) =~= metrics_for(names));
    r
}

/// The conjunction of conditions.
pub open spec fn all_of(filters: Seq<FilterV>) -> FilterExprV {
    FilterExprV::And(Seq::new(filters.len(), |i: int| FilterExprV::Condition(filters[i])))
}

/// The ghost to build for a candidate: it has the candidate's filter, its metrics,
/// and neither an order nor groups nor embedded fields.
pub open spec fn spec_for(c: CandidateV, name: Seq<char>) -> GhostSpecV {
    GhostSpecV {
        name,
        filter: all_of(c.filters),
        order_by_field: Seq::empty(),
        sort_inverted: false,
        is_auto: true,
        aggregate_specs: metrics_for(c.aggregate_fields),
        group_fields: Seq::empty(),
        projection: Seq::empty(),
        metric_order: None,
    }
}

/// The ghost to build for a candidate.
pub fn candidate_spec(candidate: &AutoGhostCandidate, name: &str) -> (r: GhostSpec)
    ensures
        r@ == spec_for(candidate@, name@),
{
    let r = GhostSpec {
        name: name.to_owned(),
        filter: filter::from_filters(&candidate.filters),
        order_by_field: String::new(),
        sort_inverted: false,
        is_auto: true,
        aggregate_specs: auto_metrics(candidate.aggregate_fields.as_slice()),
        group_fields: Vec::new(),
        projection: Vec::new(),
        metric_order: None,
    };
    assert(r@.order_by_field =~= Seq::empty());
    assert(r@.group_fields =~= Seq::empty());
    assert(r@.projection =~= Seq::empty());
    r
}

/// What the router knows of a candidate's ghost.
pub open spec fn route_for(c: CandidateV) -> RouteV {
    RouteV {
        filter_fields: filter::core_predicates(c.filters),
        filter: all_of(c.filters),
        filter_desc: Some(c.filter_desc),
        order_by_field: Seq::empty(),
        sort_inverted: false,
        has_aggregates: c.aggregate_fields.len() > 0,
        group_fields: Seq::empty(),
        aggregate_sig: Seq::empty(),
        state_ready: true,
        has_projection: false,
    }
}

/// Registers a candidate's ghost for routing.
fn register_candidate(router: &mut GhostRouter, name: &str, candidate: &AutoGhostCandidate)
    requires
        filter::filters_bound(candidate@.filters),
    ensures
        final(router).routes() == old(router).routes().insert(name@, route_for(candidate@)),
        final(router).counted() == old(router).counted(),
{
    let ghost before = router.routes();
    let fields = filter::convert_filters(&candidate.filters);
    let none = String::new();
    let groups: Vec<String> = Vec::new();
    assert(none@ =~= Seq::empty());
    assert(text::names(groups@) =~= Seq::empty());
    router.register_ghost(
        name,
        fields,
        none,
        false,
        candidate.aggregate_fields.len() > 0,
        groups,
    );
    router.set_filter(name, filter::from_filters(&candidate.filters));
    router.set_filter_desc(name, candidate.filter_desc.clone());
    assert(router.routes() =~= before.insert(name@, route_for(candidate@)));
}

/// How often a build came to nothing: because another was first, and for any
/// other reason.
#[derive(Clone, Copy, Debug, PartialEq, Eq, Structural)]
pub struct BuildCounters {
    pub dedup_lost: u64,
    pub create_failed_other: u64,
}

/// One more, from the largest number on to zero.
pub open spec fn counted_on(n: u64) -> u64 {
    if n < u64::MAX {
        (n + 1) as u64
    } else {
        0
    }
}

/// The ghost with the lifecycle of one for a hot pattern.
pub open spec fn made_ephemeral(g: GhostMetaV) -> GhostMetaV {
    GhostMetaV {
        lifecycle: ghost_meta::lifecycle_of(
            GhostType::Ephemeral,
            Some(EPHEMERAL_TTL_SECONDS),
            match ghost_meta::telemetry_of(g.lifecycle) {
                Some(t) => t,
                None => ghost_meta::no_access(),
            },
        ),
        ..g
    }
}

/// The store in which the ghost of a name is one for a hot pattern.
pub open spec fn with_ephemeral(s: StoreV, name: Seq<char>) -> StoreV {
    if s.names.contains_key(name) {
        let g = s.stored[(s.names[name], name)];
        StoreV { stored: s.stored.insert((g.lobe_id, name), made_ephemeral(g)), ..s }
    } else {
        s
    }
}

/// Ends the build of a candidate's ghost. A ghost that was created becomes one for
/// a hot pattern and is registered for routing; a build that was lost to another
/// and one that failed are counted. Says whether the metadata of the ghost is to
/// be persisted.
pub fn execute_ghost_job(
    manager: &mut GhostLobeManager,
    router: &mut GhostRouter,
    counters: &mut BuildCounters,
    name: &str,
    candidate: &AutoGhostCandidate,
    created: &Result<String, XyzError>,
) -> (persist: bool)
    requires
        old(manager).wf(),
        filter::filters_bound(candidate@.filters),
    ensures
        final(manager).wf(),
        final(manager).next() == old(manager).next(),
        final(manager).bulk() == old(manager).bulk(),
        final(manager).hook_cost() == old(manager).hook_cost(),
        forall|l: u16| final(manager).known(l) == old(manager).known(l),
        final(router).counted() == old(router).counted(),
        match *created {
            Ok(_) => {
                &&& final(manager).store() == with_ephemeral(old(manager).store(), name@)
                &&& final(router).routes() == old(router).routes().insert(
                    name@,
                    route_for(candidate@),
                )
                &&& *final(counters) == *old(counters)
                &&& persist == old(manager).names().contains_key(name@)
            },
            Err(e) => {
                &&& final(manager).store() == old(manager).store()
                &&& final(router).routes() == old(router).routes()
                &&& *final(counters) == if e is GhostExists {
                    BuildCounters {
                        dedup_lost: counted_on(old(counters).dedup_lost),
                        ..*old(counters)
                    }
                } else {
                    BuildCounters {
                        create_failed_other: counted_on(old(counters).create_failed_other),
                        ..*old(counters)
                    }
                }
                &&& !persist
            },
        },
{
    match created {
        Ok(_) => {
            let persist = manager.reclassify_lifecycle(
                name,
                GhostType::Ephemeral,
                Some(EPHEMERAL_TTL_SECONDS),
            );
            register_candidate(router, name, candidate);
            persist
        },
        Err(XyzError::GhostExists(_)) => {
            counters.dedup_lost = counters.dedup_lost.wrapping_add(1);
            false
        },
        Err(_) => {
            counters.create_failed_other = counters.create_failed_other.wrapping_add(1);
            false
        },
    }
}

/// A ghost for a hot pattern is routed to for an aggregation only if fields were
/// aggregated over the pattern; it then sums each of them. It is routed to by the
/// filter that it was built with.
pub proof fn law_auto_ghost_serves_what_was_seen(c: CandidateV, name: Seq<char>)
    ensures
        route_for(c).has_aggregates == (spec_for(c, name).aggregate_specs.len() > 0),
        route_for(c).has_aggregates == (c.aggregate_fields.len() > 0),
        forall|i: int|
            #![trigger c.aggregate_fields[i]]
            0 <= i < c.aggregate_fields.len() ==> spec_for(c, name).aggregate_specs[i + 1].field
                == c.aggregate_fields[i] && spec_for(c, name).aggregate_specs[i + 1].op
                == AggOp::Sum,
        spec_for(c, name).filter == route_for(c).filter,
{
}

/// A ghost for a pattern selects what the pattern's conditions select together, counts
/// all its members, and sums each field that was aggregated, under the names that the
/// same metrics of a query have.
pub proof fn law_auto_ghost_counts_and_sums(c: CandidateV, name: Seq<char>, i: int)
    ensures
        ({
            let s = spec_for(c, name);
            &&& s.name == name && s.is_auto && s.group_fields.len() == 0 && s.projection.len() == 0
            &&& s.filter is And && s.filter->And_0.len() == c.filters.len()
            &&& 0 <= i < c.filters.len() ==> s.filter->And_0[i] == FilterExprV::Condition(
                c.filters[i],
            )
            &&& c.aggregate_fields.len() == 0 ==> s.aggregate_specs.len() == 0
            &&& c.aggregate_fields.len() > 0 ==> s.aggregate_specs.len()
                == c.aggregate_fields.len() + 1 && s.aggregate_specs[0].op is Count
                && s.aggregate_specs[0].label == aggregate::plain_label(
                aggregate::AggregateFuncV::Count,
            )
            &&& 0 <= i < c.aggregate_fields.len() ==> {
                let m = s.aggregate_specs[i + 1];
                &&& m.field == c.aggregate_fields[i] && m.op is Sum && m.filter is None
                &&& m.label == aggregate::plain_label(
                    aggregate::AggregateFuncV::Sum(c.aggregate_fields[i]),
                )
            }
        }),
{
}

/// A ghost that is made for a hot pattern becomes an ephemeral one with its uses kept, and
/// no other ghost changes.
pub proof fn law_hot_ghost_becomes_ephemeral(s: StoreV, name: Seq<char>, k: (u16, Seq<char>))
    requires
        s.names.contains_key(name),
        s.stored.contains_key((s.names[name], name)),
        s.stored[(s.names[name], name)].lobe_id == s.names[name],
    ensures
        ({
            let g = s.stored[(s.names[name], name)];
            let after = with_ephemeral(s, name);
            let h = after.stored[(s.names[name], name)];
            &&& h.lifecycle matches ghost_meta::GhostLifecycle::Auto {
                class: ghost_meta::AutoClass::Ephemeral,
                ttl_seconds,
                ..
            } && ttl_seconds == 86_400
            &&& h == (GhostMetaV { lifecycle: h.lifecycle, ..g })
            &&& after.names == s.names
            &&& k != (s.names[name], name) ==> (after.stored.contains_key(k)
                <==> s.stored.contains_key(k)) && after.stored[k] == s.stored[k]
        }),
{
}

/// Counting goes on by one, and from the largest number to zero.
pub proof fn law_counting_goes_on(n: u64)
    ensures
        n < u64::MAX ==> counted_on(n) == n + 1,
        n == u64::MAX ==> counted_on(n) == 0,
{
}

} // verus!
