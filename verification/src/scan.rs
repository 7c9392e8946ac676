//! Scans: what they may ask for, where they read, and what they answer.

use crate::aggregate;
use crate::aggregate::{Aggregate, AggregateFunc, AggregateFuncV, AggregateV};
use crate::ast::FilterExpr;
use crate::bytes;
use crate::error;
use crate::error::XyzError;
use crate::ghost_router;
use crate::ghost_router::{GhostRouter, RouteV, ScanSource, ScanSourceV};
use crate::planner;
use crate::planner::{QueryResult, TopStmt};
use crate::record;
use crate::record::{FilterOp, Record};
use crate::scan_collect;
use crate::text;
use crate::value::{Value, ValueV};
use vstd::prelude::*;

verus! {

/// How many records a scan answers that does not say.
pub const SCAN_LIMIT_DEFAULT: u64 = 1_000;

/// How many records a scan may ask for.
pub const SCAN_LIMIT_HARD_MAX: u64 = 10_000;

/// Whether a scan feeds a similarity search, which needs every candidate and is
/// limited by time instead.
#[derive(Clone, Copy, Debug, PartialEq, Eq, Structural)]
pub enum ScanCap {
    Capped,
    NearestUncapped { budget_ms: u64 },
}

/// How many records each way of scanning may answer.
#[derive(Clone, Copy, Debug, PartialEq, Eq, Structural)]
pub struct ScanLimits {
    pub scan_limit: Option<u64>,
    /// For a scan of one gravity bucket.
    pub gravity_limit: Option<u64>,
    /// How long a scan of one gravity bucket may take; zero for any time.
    pub gravity_budget: u64,
}

/// How a scan begins.
#[derive(Clone, Copy, Debug, PartialEq, Eq, Structural)]
pub enum ScanStart {
    /// It resumes at a cursor.
    Cursor,
    /// It begins anew.
    Fresh(ScanLimits),
}

/// Why a limit is refused.
pub open spec fn limit_text(l: u64) -> Seq<char> {
    "LIMIT "@ + text::decimal(l as int)
        + " exceeds hard maximum 10000; paginate with CURSOR or use chunked-streaming SCAN (V2 FORMAT_*_CHUNKED) for larger result sets"@
}

/// The limit is more than a scan may ask for.
pub open spec fn over_max(limit: Option<u64>) -> bool {
    limit matches Some(l) && l > SCAN_LIMIT_HARD_MAX
}

/// Refuses a limit that is more than a scan may ask for.
pub fn validate_scan_limit_cap(limit: Option<u64>) -> (r: Result<(), XyzError>)
    ensures
        if over_max(limit) {
            error::is_invalid(r, limit_text(limit->Some_0))
        } else {
            r is Ok
        },
{
    match limit {
        Some(l) => {
            if l > SCAN_LIMIT_HARD_MAX {
                let n = text::decimal_text(l as i128);
                return error::invalid(
                    text::join3(
                        "LIMIT ",
                        n.as_str(),
                        " exceeds hard maximum 10000; paginate with CURSOR or use chunked-streaming SCAN (V2 FORMAT_*_CHUNKED) for larger result sets",
                    ).as_str(),
                );
            }
            Ok(())
        },
        None => Ok(()),
    }
}

/// Why an aggregation cannot resume at a cursor.
pub open spec fn aggregate_cursor_text() -> Seq<char> {
    "CURSOR pagination is not supported on aggregate pipelines; aggregates collapse a SCAN to a single row (or per-group row)"@
}

/// Refuses an aggregation that would resume at a cursor.
pub fn validate_no_cursor_for_aggregate(has_cursor: bool) -> (r: Result<(), XyzError>)
    ensures
        if has_cursor {
            error::is_invalid(r, aggregate_cursor_text())
        } else {
            r is Ok
        },
{
    if has_cursor {
        return error::invalid(
            "CURSOR pagination is not supported on aggregate pipelines; aggregates collapse a SCAN to a single row (or per-group row)",
        );
    }
    Ok(())
}

/// Whether an aggregation can be run, and what is wrong with it first: it resumes
/// at a cursor, its names are ambiguous, or its limit is too high. Of one by
/// groups the limit is looked at before the names.
pub open spec fn is_admission(
    has_cursor: bool,
    limit: Option<u64>,
    aggs: Seq<AggregateV>,
    grouped: bool,
    r: Result<(), XyzError>,
) -> bool {
    let clear = aggregate::clear_before(aggs, aggs.len() as int);
    if has_cursor {
        error::is_invalid(r, aggregate_cursor_text())
    } else if over_max(limit) && (grouped || clear) {
        error::is_invalid(r, limit_text(limit->Some_0))
    } else if !clear {
        r matches Err(XyzError::Parse(m)) && aggregate::refuses_labels(aggs, m@)
    } else {
        r is Ok
    }
}

/// Refuses an aggregation that cannot be run.
pub fn admit_aggregation(
    has_cursor: bool,
    limit: Option<u64>,
    aggs: &Vec<Aggregate>,
    grouped: bool,
) -> (r: Result<(), XyzError>)
    ensures
        is_admission(has_cursor, limit, aggregate::aggregates_view(aggs@), grouped, r),
{
    validate_no_cursor_for_aggregate(has_cursor)?;
    if grouped {
        validate_scan_limit_cap(limit)?;
    }
    match aggregate::resolve_labels(aggs) {
        Ok(_) => {},
        Err(m) => {
            return Err(XyzError::Parse(m));
        },
    }
    validate_scan_limit_cap(limit)
}

/// How many records each way of scanning may answer: as many as asked for, or
/// else the default. A scan in an order is limited when it is sorted. A scan of
/// one gravity bucket that feeds a similarity search has no limit that was not
/// asked for.
pub open spec fn limits_of(limit: Option<u64>, ordered: bool, cap: ScanCap) -> ScanLimits {
    let scan_limit = if ordered {
        None
    } else {
        match limit {
            Some(l) => Some(l),
            None => Some(SCAN_LIMIT_DEFAULT),
        }
    };
    match cap {
        ScanCap::Capped => ScanLimits { scan_limit, gravity_limit: scan_limit, gravity_budget: 0 },
        ScanCap::NearestUncapped { budget_ms } => ScanLimits {
            scan_limit,
            gravity_limit: if limit is Some {
                scan_limit
            } else {
                None
            },
            gravity_budget: budget_ms,
        },
    }
}

/// What comes of asking for a scan.
pub open spec fn is_start(
    limit: Option<u64>,
    ordered: bool,
    has_cursor: bool,
    cap: ScanCap,
    r: Result<ScanStart, XyzError>,
) -> bool {
    if over_max(limit) {
        error::is_invalid(r, limit_text(limit->Some_0))
    } else if has_cursor && ordered {
        error::is_invalid(
            r,
            "CURSOR with ORDER BY is not supported in v0.2.5.1; paginated sort lands in v0.3 with a dedicated cursor variant"@,
        )
    } else if has_cursor {
        r == Ok::<ScanStart, XyzError>(ScanStart::Cursor)
    } else if ordered && limit is None {
        error::is_invalid(
            r,
            "ORDER BY requires LIMIT (sorting unbounded results is not supported)"@,
        )
    } else {
        r == Ok::<ScanStart, XyzError>(ScanStart::Fresh(limits_of(limit, ordered, cap)))
    }
}

/// Checks what a scan asks for and says how it begins.
pub fn start_scan(limit: Option<u64>, ordered: bool, has_cursor: bool, cap: ScanCap) -> (r: Result<
    ScanStart,
    XyzError,
>)
    ensures
        is_start(limit, ordered, has_cursor, cap, r),
{
    match validate_scan_limit_cap(limit) {
        Ok(_) => {},
        Err(e) => {
            return Err(e);
        },
    }
    if has_cursor && ordered {
        return error::invalid(
            "CURSOR with ORDER BY is not supported in v0.2.5.1; paginated sort lands in v0.3 with a dedicated cursor variant",
        );
    }
    if has_cursor {
        return Ok(ScanStart::Cursor);
    }
    if ordered && limit.is_none() {
        return error::invalid(
            "ORDER BY requires LIMIT (sorting unbounded results is not supported)",
        );
    }
    let scan_limit = if ordered {
        None
    } else {
        match limit {
            Some(l) => Some(l),
            None => Some(SCAN_LIMIT_DEFAULT),
        }
    };
    let limits = match cap {
        ScanCap::Capped => ScanLimits { scan_limit, gravity_limit: scan_limit, gravity_budget: 0 },
        ScanCap::NearestUncapped { budget_ms } => ScanLimits {
            scan_limit,
            gravity_limit: if limit.is_some() {
                scan_limit
            } else {
                None
            },
            gravity_budget: budget_ms,
        },
    };
    Ok(ScanStart::Fresh(limits))
}

/// How a scan reads.
#[derive(Debug, PartialEq, Eq)]
pub enum ScanRoute {
    /// The first entries of a ghost, in its order.
    GhostTopN { name: String, n: usize },
    /// The entries of a ghost, one more than wanted.
    GhostScan { name: String, probe: usize },
    /// The first records of a gravity bucket in an order.
    GravityTopN { hash: u64, n: usize },
    /// The first records of the lobe in an order.
    FullTopN { n: usize },
    /// The records of a gravity bucket.
    Gravity { hash: u64, limit: Option<u64>, budget_ms: u64 },
    /// The records of the lobe.
    FullExpr { limit: Option<u64> },
    /// A page of the records of the lobe.
    Paged { limit: u64 },
}

/// What a [`ScanRoute`] says.
pub enum ScanRouteV {
    GhostTopN { name: Seq<char>, n: nat },
    GhostScan { name: Seq<char>, probe: nat },
    GravityTopN { hash: u64, n: nat },
    FullTopN { n: nat },
    Gravity { hash: u64, limit: Option<u64>, budget_ms: u64 },
    FullExpr { limit: Option<u64> },
    Paged { limit: u64 },
}

impl View for ScanRoute {
    type V = ScanRouteV;

    open spec fn view(&self) -> ScanRouteV {
        match self {
            ScanRoute::GhostTopN { name, n } => ScanRouteV::GhostTopN { name: name@, n: *n as nat },
            ScanRoute::GhostScan { name, probe } => ScanRouteV::GhostScan {
                name: name@,
                probe: *probe as nat,
            },
            ScanRoute::GravityTopN { hash, n } => ScanRouteV::GravityTopN {
                hash: *hash,
                n: *n as nat,
            },
            ScanRoute::FullTopN { n } => ScanRouteV::FullTopN { n: *n as nat },
            ScanRoute::Gravity { hash, limit, budget_ms } => ScanRouteV::Gravity {
                hash: *hash,
                limit: *limit,
                budget_ms: *budget_ms,
            },
            ScanRoute::FullExpr { limit } => ScanRouteV::FullExpr { limit: *limit },
            ScanRoute::Paged { limit } => ScanRouteV::Paged { limit: *limit },
        }
    }
}

/// How a scan in an order reads without a ghost.
pub open spec fn ordered_route(limit: u64, hash: Option<u64>) -> ScanRouteV {
    match hash {
        Some(h) => ScanRouteV::GravityTopN { hash: h, n: limit as nat },
        None => ScanRouteV::FullTopN { n: limit as nat },
    }
}

/// How a scan without an order reads where it cannot be resumed.
pub open spec fn plain_route(limits: ScanLimits, hash: Option<u64>) -> ScanRouteV {
    match hash {
        Some(h) => ScanRouteV::Gravity {
            hash: h,
            limit: limits.gravity_limit,
            budget_ms: limits.gravity_budget,
        },
        None => ScanRouteV::FullExpr { limit: limits.scan_limit },
    }
}

/// How a scan reads. `order` is the limit of a scan in an order, `hash` that of
/// the bucket that its predicates pin.
pub open spec fn route_of(
    source: ScanSourceV,
    order: Option<u64>,
    limits: ScanLimits,
    hash: Option<u64>,
) -> ScanRouteV {
    match (source, order) {
        (ScanSourceV::GhostRecords(name), Some(l)) => ScanRouteV::GhostTopN { name, n: l as nat },
        (ScanSourceV::GhostRecords(name), None) => ScanRouteV::GhostScan {
            name,
            probe: match limits.scan_limit {
                Some(l) => (l + 1) as nat,
                None => usize::MAX as nat,
            },
        },
        (ScanSourceV::GhostPreComputed(_), _) => plain_route(limits, hash),
        (ScanSourceV::Primary, Some(l)) => ordered_route(l, hash),
        (ScanSourceV::Primary, None) => match hash {
            Some(_) => plain_route(limits, hash),
            None => ScanRouteV::Paged {
                limit: match limits.scan_limit {
                    Some(l) => l,
                    None => SCAN_LIMIT_DEFAULT,
                },
            },
        },
    }
}

/// How a scan reads whose ghost is gone.
pub open spec fn fallback_of(order: Option<u64>, limits: ScanLimits, hash: Option<u64>) -> ScanRouteV {
    match order {
        Some(l) => ordered_route(l, hash),
        None => plain_route(limits, hash),
    }
}

fn ordered_read(limit: u64, hash: Option<u64>) -> (r: ScanRoute)
    requires
        limit <= SCAN_LIMIT_HARD_MAX,
    ensures
        r@ == ordered_route(limit, hash),
{
    match hash {
        Some(h) => ScanRoute::GravityTopN { hash: h, n: limit as usize },
        None => ScanRoute::FullTopN { n: limit as usize },
    }
}

fn plain_read(limits: ScanLimits, hash: Option<u64>) -> (r: ScanRoute)
    ensures
        r@ == plain_route(limits, hash),
{
    match hash {
        Some(h) => ScanRoute::Gravity {
            hash: h,
            limit: limits.gravity_limit,
            budget_ms: limits.gravity_budget,
        },
        None => ScanRoute::FullExpr { limit: limits.scan_limit },
    }
}

/// How a scan reads: from the source that was planned, and from the primary
/// keyspace by its gravity bucket where its predicates pin one.
pub fn route_scan(
    source: &ScanSource,
    order: Option<u64>,
    limits: ScanLimits,
    hash: Option<u64>,
) -> (r: ScanRoute)
    requires
        !over_max(order),
        !over_max(limits.scan_limit),
    ensures
        r@ == route_of(source@, order, limits, hash),
{
    match source {
        ScanSource::GhostRecords(name) => match order {
            Some(l) => ScanRoute::GhostTopN { name: name.clone(), n: l as usize },
            None => ScanRoute::GhostScan {
                name: name.clone(),
                probe: match limits.scan_limit {
                    Some(l) => (l + 1) as usize,
                    None => usize::MAX,
                },
            },
        },
        ScanSource::GhostPreComputed(_) => plain_read(limits, hash),
        ScanSource::Primary => match order {
            Some(l) => ordered_read(l, hash),
            None => match hash {
                Some(_) => plain_read(limits, hash),
                None => ScanRoute::Paged {
                    limit: match limits.scan_limit {
                        Some(l) => l,
                        None => SCAN_LIMIT_DEFAULT,
                    },
                },
            },
        },
    }
}

/// How a scan reads whose ghost was gone when it was to be read.
pub fn fallback_route(order: Option<u64>, limits: ScanLimits, hash: Option<u64>) -> (r: ScanRoute)
    requires
        !over_max(order),
    ensures
        r@ == fallback_of(order, limits, hash),
{
    match order {
        Some(l) => ordered_read(l, hash),
        None => plain_read(limits, hash),
    }
}

/// The wanted ones of a ghost's records, and whether there were more.
pub fn cap_ghost_rows(rows: Vec<Record>, limit: Option<u64>) -> (r: (Vec<Record>, bool))
    ensures
        r.0@ == scan_collect::capped(rows@, limit),
        r.1 == scan_collect::over_cap(rows@, limit),
{
    let mut v = rows;
    match limit {
        Some(l) => {
            if v.len() as u64 > l {
                let ghost all = v@;
                v.truncate(l as usize);
                assert(v@ =~= all.take(l as int));
                (v, true)
            } else {
                (v, false)
            }
        },
        None => (v, false),
    }
}

/// What a scan answers: its records; a page with the cursor of the next one
/// where it read a page and there is more; and a page without a cursor where
/// it was cut short, unless it feeds a similarity search.
pub open spec fn answered(
    records: Vec<Record>,
    next: Option<String>,
    truncated: bool,
    cap: ScanCap,
) -> QueryResult {
    if truncated && cap == ScanCap::Capped {
        QueryResult::PaginatedRecords { records, cursor: None, has_more: true, budget_stop: None }
    } else if next is Some {
        QueryResult::PaginatedRecords { records, cursor: next, has_more: true, budget_stop: None }
    } else {
        QueryResult::Records(records)
    }
}

/// What a scan answers.
pub fn scan_answer(
    records: Vec<Record>,
    next: Option<String>,
    truncated: bool,
    cap: ScanCap,
) -> (r: QueryResult)
    ensures
        r == answered(records, next, truncated, cap),
{
    if truncated && cap == ScanCap::Capped {
        QueryResult::PaginatedRecords { records, cursor: None, has_more: true, budget_stop: None }
    } else if next.is_some() {
        QueryResult::PaginatedRecords { records, cursor: next, has_more: true, budget_stop: None }
    } else {
        QueryResult::Records(records)
    }
}

/// The answer tells of more.
pub open spec fn tells_more(r: QueryResult) -> bool {
    r matches QueryResult::PaginatedRecords { has_more: true, .. }
}

/// A scan that is not cut short for a search never passes off a part for the
/// whole: its answer tells of more exactly where records that pass were left
/// out. `all` are the records that pass.
pub proof fn law_part_is_told(
    all: Seq<Record>,
    limit: Option<u64>,
    records: Vec<Record>,
    r: QueryResult,
)
    requires
        records@ == scan_collect::capped(all, limit),
        r == answered(records, None, scan_collect::over_cap(all, limit), ScanCap::Capped),
    ensures
        tells_more(r) <==> records@.len() < all.len(),
{
}

/// The name of a source.
pub open spec fn source_text(s: ScanSourceV) -> Seq<char> {
    match s {
        ScanSourceV::Primary => "primary"@,
        ScanSourceV::GhostRecords(n) => "ghost:"@ + n,
        ScanSourceV::GhostPreComputed(n) => "ghost_pre:"@ + n,
    }
}

/// The name of a source.
pub fn source_name(s: &ScanSource) -> (r: String)
    ensures
        r@ == source_text(s@),
{
    match s {
        ScanSource::Primary => "primary".to_owned(),
        ScanSource::GhostRecords(n) => text::join2("ghost:", n.as_str()),
        ScanSource::GhostPreComputed(n) => text::join2("ghost_pre:", n.as_str()),
    }
}

/// The ghost precomputes every metric of a signature.
pub open spec fn covers(routes: Map<Seq<char>, RouteV>, name: Seq<char>, sig: Seq<Seq<char>>) -> bool {
    routes.contains_key(name) && forall|i: int|
        0 <= i < sig.len() ==> routes[name].aggregate_sig.contains(#[trigger] sig[i])
}

/// Where an aggregation reads: where a scan with its predicates and groups is
/// planned to, unless the ghost lacks one of its metrics.
pub open spec fn aggregate_planned(
    routes: Map<Seq<char>, RouteV>,
    q: ghost_router::PlanQuery,
    sig: Seq<Seq<char>>,
    r: ScanSourceV,
) -> bool {
    exists|s: ScanSourceV| #[trigger]
        ghost_router::planned(routes, q, s) && r == (match s {
            ScanSourceV::GhostPreComputed(n) => if covers(routes, n, sig) {
                s
            } else {
                ScanSourceV::Primary
            },
            _ => s,
        })
}

/// Plans where an aggregation reads. A ghost answers it only where it
/// precomputes every metric that is asked for: another metric must not stand
/// under its name.
pub fn plan_aggregate(
    router: &GhostRouter,
    filters: &[(String, FilterOp, Value)],
    group_by: &[String],
    query_filter: Option<&FilterExpr>,
    anchored: &[String],
    query_sig: &[String],
) -> (r: ScanSource)
    ensures
        aggregate_planned(
            router.routes(),
            ghost_router::plan_query(
                filters,
                None,
                true,
                group_by,
                false,
                query_filter,
                Some(anchored),
            ),
            text::names(query_sig@),
            r@,
        ),
{
    let s = router.plan_scan(
        filters,
        true,
        None,
        true,
        group_by,
        false,
        query_filter,
        Some(anchored),
    );
    let ghost sv = s@;
    match &s {
        ScanSource::GhostPreComputed(n) => {
            let c = router.aggregate_sig_covers(n.as_str(), query_sig);
            assert(c == covers(router.routes(), n@, text::names(query_sig@)));
            if !c {
                assert(ghost_router::planned(
                    router.routes(),
                    ghost_router::plan_query(
                        filters,
                        None,
                        true,
                        group_by,
                        false,
                        query_filter,
                        Some(anchored),
                    ),
                    sv,
                ));
                return ScanSource::Primary;
            }
        },
        _ => {},
    }
    s
}

/// An aggregation is answered from a ghost's precomputed aggregates only where
/// the ghost has its groups, covers its predicates and has all its metrics.
pub proof fn law_precomputed_answer_fits(
    routes: Map<Seq<char>, RouteV>,
    q: ghost_router::PlanQuery,
    sig: Seq<Seq<char>>,
    r: ScanSourceV,
)
    requires
        aggregate_planned(routes, q, sig, r),
    ensures
        r matches ScanSourceV::GhostPreComputed(n) ==> covers(routes, n, sig)
            && routes[n].group_fields == q.group_by && forall|i: int|
            0 <= i < q.filters.len() ==> ghost_router::covered(routes[n], #[trigger] q.filters[i]),
{
    let s = choose|s: ScanSourceV| #[trigger]
        ghost_router::planned(routes, q, s) && r == (match s {
            ScanSourceV::GhostPreComputed(n) => if covers(routes, n, sig) {
                s
            } else {
                ScanSourceV::Primary
            },
            _ => s,
        });
    ghost_router::law_aggregate_plan_covers(routes, q, s);
}

/// Takes a ghost that is gone out of the router. Gives the scan pattern that it
/// was made for, so that the pattern can lead to a ghost again.
pub fn fallback_unregister_ghost(router: &mut GhostRouter, name: &str) -> (r: Option<String>)
    ensures
        final(router).routes() == old(router).routes().remove(name@),
        final(router).counted() == old(router).counted(),
        match r {
            Some(d) => old(router).routes().contains_key(name@)
                && old(router).routes()[name@].filter_desc == Some(d@),
            None => !old(router).routes().contains_key(name@)
                || old(router).routes()[name@].filter_desc is None,
        },
{
    let desc = match router.get_filter_desc(name) {
        Some(d) => Some(d.to_owned()),
        None => None,
    };
    router.unregister_ghost(name);
    desc
}

/// The field that a metric reads.
pub open spec fn field_of(f: AggregateFuncV) -> Option<Seq<char>> {
    match f {
        AggregateFuncV::Count => None,
        AggregateFuncV::Sum(s) => Some(s),
        AggregateFuncV::Avg(s) => Some(s),
        AggregateFuncV::Min(s) => Some(s),
        AggregateFuncV::Max(s) => Some(s),
    }
}

/// The fields that metrics read, in order.
pub open spec fn fields_of(s: Seq<AggregateV>) -> Seq<Seq<char>>
    decreases s.len(),
{
    if s.len() == 0 {
        Seq::empty()
    } else {
        match field_of(s.last().func) {
            Some(f) => fields_of(s.drop_last()).push(f),
            None => fields_of(s.drop_last()),
        }
    }
}

/// The fields that metrics read.
pub fn extract_aggregate_fields(aggs: &Vec<Aggregate>) -> (r: Vec<String>)
    ensures
        text::names(r@) == fields_of(aggregate::aggregates_view(aggs@)),
{
    let ghost s = aggregate::aggregates_view(aggs@);
    let mut r: Vec<String> = Vec::new();
    let mut i: usize = 0;
    proof {
        assert(s.take(0) =~= Seq::<AggregateV>::empty());
        assert(text::names(r@) =~= Seq::<Seq<char>>::empty());
    }
    while i < aggs.len()
        invariant
            i <= aggs@.len(),
            s == aggregate::aggregates_view(aggs@),
            text::names(r@) == fields_of(s.take(i as int)),
        decreases aggs@.len() - i,
    {
        proof {
            assert(s.take(i + 1).drop_last() =~= s.take(i as int));
            assert(s.take(i + 1).last() == aggs@[i as int]@);
        }
        let f = match &aggs[i].func {
            AggregateFunc::Count => None,
            AggregateFunc::Sum(f) => Some(f),
            AggregateFunc::Avg(f) => Some(f),
            AggregateFunc::Min(f) => Some(f),
            AggregateFunc::Max(f) => Some(f),
        };
        if let Some(n) = f {
            let ghost before = text::names(r@);
            r.push(n.clone());
            assert(text::names(r@) =~= before.push(n@));
        }
        i = i + 1;
    }
    assert(s.take(i as int) =~= s);
    r
}

/// An equality pins one of the group fields.
pub open spec fn pins_group(
    filters: Seq<(Seq<char>, FilterOp, ValueV)>,
    group_fields: Seq<Seq<char>>,
) -> bool {
    exists|i: int|
        0 <= i < filters.len() && (#[trigger] filters[i]).1 == FilterOp::Eq
            && group_fields.contains(filters[i].0)
}

/// The metric by which the best groups can be read in order: those of all
/// groups, ranked by a metric.
pub open spec fn ordered_label(
    top: Option<TopStmt>,
    filters: Seq<(Seq<char>, FilterOp, ValueV)>,
    group_fields: Seq<Seq<char>>,
) -> Option<Seq<char>> {
    match top {
        Some(t) => match t.by {
            Some(by) => if pins_group(filters, group_fields) {
                None
            } else {
                Some(planner::top_label(by))
            },
            None => None,
        },
        None => None,
    }
}

/// The metric by which the best groups can be read in order.
pub fn top_order_label(
    top: Option<&TopStmt>,
    filters: &[(String, FilterOp, Value)],
    group_fields: &[String],
) -> (r: Option<String>)
    ensures
        crate::ghost_keys::opt_text(r) == ordered_label(
            match top {
                Some(t) => Some(*t),
                None => None,
            },
            record::predicates_view(filters@),
            text::names(group_fields@),
        ),
{
    let ghost fv = record::predicates_view(filters@);
    let ghost gv = text::names(group_fields@);
    match top {
        None => None,
        Some(t) => match &t.by {
            None => None,
            Some(by) => {
                let mut i: usize = 0;
                while i < filters.len()
                    invariant
                        i <= filters@.len(),
                        fv == record::predicates_view(filters@),
                        gv == text::names(group_fields@),
                        t.by == Some(*by),
                        top == Some(t),
                        forall|j: int|
                            0 <= j < i ==> !((#[trigger] fv[j]).1 == FilterOp::Eq && gv.contains(
                                fv[j].0,
                            )),
                    decreases filters@.len() - i,
                {
                    assert(fv[i as int] == record::predicate_view(filters@[i as int]));
                    if filters[i].1 == FilterOp::Eq && text::names_contain(
                        group_fields,
                        filters[i].0.as_str(),
                    ) {
                        assert(pins_group(fv, gv));
                        return None;
                    }
                    i = i + 1;
                }
                assert(!pins_group(fv, gv));
                Some(planner::by_label(by))
            },
        },
    }
}

/// A chunk of a stream: how long the payload is, in four bytes, and the payload.
/// Of the length of a payload of four gigabytes or more, the bytes hold what is
/// left over.
pub open spec fn chunk(payload: Seq<u8>) -> Seq<u8> {
    bytes::be32((payload.len() % 0x1_0000_0000) as u32) + payload
}

/// A chunk of a stream.
pub fn write_chunk(payload: &[u8]) -> (r: Vec<u8>)
    ensures
        r@ == chunk(payload@),
{
    let mut r: Vec<u8> = Vec::new();
    bytes::push_be32(&mut r, (payload.len() as u64 % 0x1_0000_0000) as u32);
    bytes::push_all(&mut r, payload);
    assert(r@ =~= chunk(payload@));
    r
}

/// What a cursor is bound to: a lobe and the checksum of a predicate.
#[derive(Clone, Copy, Debug, PartialEq, Eq, Structural)]
pub struct CursorBinding {
    pub lobe_id: u16,
    pub filter_checksum: u64,
}

/// Why a cursor of another lobe is refused.
pub open spec fn cursor_lobe_text(token: u16, current: u16) -> Seq<char> {
    "cursor invalid: token issued for lobe_id="@ + text::decimal(token as int)
        + ", current request targets lobe_id="@ + text::decimal(current as int)
}

/// Why a cursor of another predicate is refused.
pub open spec fn cursor_filter_text() -> Seq<char> {
    "cursor invalid: WHERE clause does not match the cursor's binding; cursors are only valid for the exact filter that produced them"@
}

/// A cursor is good for a request with the lobe and the predicate that it was
/// made for alone.
pub open spec fn is_cursor_check(token: CursorBinding, current: CursorBinding, r: Result<(), XyzError>) -> bool {
    if token.lobe_id != current.lobe_id {
        error::is_invalid(r, cursor_lobe_text(token.lobe_id, current.lobe_id))
    } else if token.filter_checksum != current.filter_checksum {
        error::is_invalid(r, cursor_filter_text())
    } else {
        r is Ok
    }
}

/// Checks that a cursor was made for this lobe and predicate.
pub fn check_cursor(token: CursorBinding, current: CursorBinding) -> (r: Result<(), XyzError>)
    ensures
        is_cursor_check(token, current, r),
{
    if token.lobe_id != current.lobe_id {
        let t = text::decimal_text(token.lobe_id as i128);
        let c = text::decimal_text(current.lobe_id as i128);
        let mut m = text::join3(
            "cursor invalid: token issued for lobe_id=",
            t.as_str(),
            ", current request targets lobe_id=",
        );
        m.append(c.as_str());
        return error::invalid(m.as_str());
    }
    if token.filter_checksum != current.filter_checksum {
        return error::invalid(
            "cursor invalid: WHERE clause does not match the cursor's binding; cursors are only valid for the exact filter that produced them",
        );
    }
    Ok(())
}

/// The key before which a resumed scan of a lobe ends: the first of the next
/// lobe.
pub fn lobe_end(lobe_id: u16) -> (r: Result<Vec<u8>, XyzError>)
    ensures
        if lobe_id < u16::MAX {
            r matches Ok(k) && k@ == bytes::be16((lobe_id + 1) as u16)
        } else {
            r matches Err(XyzError::Internal(m)) && m@ == "lobe_id overflow on cursor end-bound"@
        },
{
    if lobe_id == u16::MAX {
        return Err(XyzError::Internal("lobe_id overflow on cursor end-bound".to_owned()));
    }
    let mut k: Vec<u8> = Vec::new();
    bytes::push_be16(&mut k, lobe_id + 1);
    assert(k@ =~= bytes::be16((lobe_id + 1) as u16));
    Ok(k)
}

/// What a resumed scan answers.
pub fn cursor_answer(records: Vec<Record>, next: Option<String>, has_more: bool) -> (r: QueryResult)
    ensures
        r == (QueryResult::PaginatedRecords { records, cursor: next, has_more, budget_stop: None }),
{
    QueryResult::PaginatedRecords { records, cursor: next, has_more, budget_stop: None }
}

/// A scan answers with no more than was asked for, or else with a thousand; a scan in an
/// order is limited when it is sorted. One that feeds a similarity search reads a whole
/// bucket where no limit was asked for, within the time it has.
pub proof fn law_scans_are_limited(limit: Option<u64>, ordered: bool, budget_ms: u64)
    ensures
        ({
            let plain = limits_of(limit, ordered, ScanCap::Capped);
            let feeding = limits_of(limit, ordered, ScanCap::NearestUncapped { budget_ms });
            &&& ordered ==> plain.scan_limit is None && feeding.scan_limit is None
            &&& !ordered && limit is Some ==> plain.scan_limit == limit && feeding.scan_limit
                == limit && feeding.gravity_limit == limit
            &&& !ordered && limit is None ==> plain.scan_limit == Some(1000u64)
                && feeding.scan_limit == Some(1000u64)
            &&& plain.gravity_limit == plain.scan_limit && plain.gravity_budget == 0
            &&& limit is None ==> feeding.gravity_limit is None
            &&& feeding.gravity_budget == budget_ms
        }),
{
}

/// A scan that goes by a ghost reads that ghost; one of the records reads the bucket that
/// its predicates pin where they pin one, and the whole lobe where not; one in an order
/// looks for as many as were asked for. A ghost's records are probed for one more than
/// are answered, so that it shows whether there are more. Where the ghost is gone the
/// records are read in its place.
pub proof fn law_scan_reads_what_is_pinned(
    source: ScanSourceV,
    order: Option<u64>,
    limits: ScanLimits,
    hash: Option<u64>,
)
    ensures
        ({
            let r = route_of(source, order, limits, hash);
            let gone = fallback_of(order, limits, hash);
            &&& source matches ScanSourceV::GhostRecords(g) ==> match order {
                Some(n) => r == ScanRouteV::GhostTopN { name: g, n: n as nat },
                None => r matches ScanRouteV::GhostScan { name, probe } && name == g && (
                limits.scan_limit matches Some(l) ==> probe == l + 1),
            }
            &&& source is Primary && order is Some && hash is Some ==> r
                == ScanRouteV::GravityTopN { hash: hash->Some_0, n: order->Some_0 as nat }
            &&& source is Primary && order is Some && hash is None ==> r == ScanRouteV::FullTopN {
                n: order->Some_0 as nat,
            }
            &&& source is Primary && order is None && hash is Some ==> (r matches ScanRouteV::Gravity {
                hash: h,
                limit,
                budget_ms,
            } && Some(h) == hash && limit == limits.gravity_limit && budget_ms
                == limits.gravity_budget)
            &&& source is Primary && order is None && hash is None ==> (r matches ScanRouteV::Paged {
                limit,
            } && (limits.scan_limit is Some ==> Some(limit) == limits.scan_limit))
            &&& order is Some ==> gone == route_of(ScanSourceV::Primary, order, limits, hash)
            &&& order is None && hash is Some ==> gone == route_of(
                ScanSourceV::Primary,
                order,
                limits,
                hash,
            )
            &&& order is None && hash is None ==> gone == ScanRouteV::FullExpr {
                limit: limits.scan_limit,
            }
        }),
{
}

/// An aggregation reads what a ghost precomputed only where the ghost has every one of
/// its metrics.
pub proof fn law_precomputed_has_every_metric(
    routes: Map<Seq<char>, RouteV>,
    q: ghost_router::PlanQuery,
    sig: Seq<Seq<char>>,
    r: ScanSourceV,
    i: int,
)
    requires
        aggregate_planned(routes, q, sig, r),
        0 <= i < sig.len(),
    ensures
        r matches ScanSourceV::GhostPreComputed(n) ==> routes.contains_key(n)
            && routes[n].aggregate_sig.contains(sig[i]),
{
}

/// The fields that metrics read are those of all of them but the counts, in their order.
pub proof fn law_metrics_read_their_fields(s: Seq<AggregateV>, a: AggregateV)
    ensures
        fields_of(Seq::<AggregateV>::empty()) == Seq::<Seq<char>>::empty(),
        match a.func {
            AggregateFuncV::Count => fields_of(s.push(a)) == fields_of(s),
            AggregateFuncV::Sum(f) => fields_of(s.push(a)) == fields_of(s).push(f),
            AggregateFuncV::Avg(f) => fields_of(s.push(a)) == fields_of(s).push(f),
            AggregateFuncV::Min(f) => fields_of(s.push(a)) == fields_of(s).push(f),
            AggregateFuncV::Max(f) => fields_of(s.push(a)) == fields_of(s).push(f),
        },
{
    assert(s.push(a).drop_last() =~= s);
}

/// The best groups are read in the order of their metric only where they are ranked by
/// one and no equality is about a group field.
pub proof fn law_order_is_used_for_all_groups(
    top: TopStmt,
    filters: Seq<(Seq<char>, FilterOp, ValueV)>,
    group_fields: Seq<Seq<char>>,
    i: int,
)
    ensures
        ordered_label(None, filters, group_fields) is None,
        top.by is None ==> ordered_label(Some(top), filters, group_fields) is None,
        0 <= i < filters.len() && filters[i].1 is Eq && group_fields.contains(filters[i].0)
            ==> ordered_label(Some(top), filters, group_fields) is None,
        top.by is Some && (forall|j: int|
            0 <= j < filters.len() && (#[trigger] filters[j]).1 is Eq ==> !group_fields.contains(
                filters[j].0,
            )) ==> ordered_label(Some(top), filters, group_fields) == Some(
            planner::top_label(top.by->Some_0),
        ),
{
    if 0 <= i < filters.len() && filters[i].1 is Eq && group_fields.contains(filters[i].0) {
        assert(filters[i].1 == FilterOp::Eq);
        assert(pins_group(filters, group_fields));
    }
}

/// A cursor is good exactly for the lobe and the predicate that it was made for.
pub proof fn law_cursor_is_good_for_its_request(
    token: CursorBinding,
    current: CursorBinding,
    r: Result<(), XyzError>,
)
    requires
        is_cursor_check(token, current, r),
    ensures
        r is Ok <==> token.lobe_id == current.lobe_id && token.filter_checksum
            == current.filter_checksum,
{
}

/// A scan is refused where it asks for more than ten thousand records, resumes in an
/// order, or is ordered without a limit, and only there. One that resumes goes on at its
/// cursor.
pub proof fn law_scan_is_refused_for_a_reason(
    limit: Option<u64>,
    ordered: bool,
    has_cursor: bool,
    cap: ScanCap,
    r: Result<ScanStart, XyzError>,
)
    requires
        is_start(limit, ordered, has_cursor, cap, r),
    ensures
        r is Err <==> (limit matches Some(l) && l > 10_000) || (has_cursor && ordered) || (ordered
            && limit is None),
        r is Ok && has_cursor ==> r == Ok::<ScanStart, XyzError>(ScanStart::Cursor),
        r is Ok && !has_cursor ==> (r matches Ok(ScanStart::Fresh(l)) && l == limits_of(
            limit,
            ordered,
            cap,
        )),
{
}

/// An aggregation is admitted exactly where it does not resume, asks for no more than ten
/// thousand rows, and names its metrics without ambiguity.
pub proof fn law_aggregation_is_admitted(
    has_cursor: bool,
    limit: Option<u64>,
    aggs: Seq<AggregateV>,
    grouped: bool,
    r: Result<(), XyzError>,
)
    requires
        is_admission(has_cursor, limit, aggs, grouped, r),
    ensures
        r is Ok <==> !has_cursor && !(limit matches Some(l) && l > 10_000)
            && aggregate::clear_before(aggs, aggs.len() as int),
{
}

/// A chunk is its payload behind four bytes that say how long it is.
pub proof fn law_chunk_says_its_length(payload: Seq<u8>)
    requires
        payload.len() < 0x1_0000_0000,
    ensures
        chunk(payload).len() == payload.len() + 4,
        chunk(payload).skip(4) == payload,
        chunk(payload)[0] * 0x100_0000 + chunk(payload)[1] * 0x1_0000 + chunk(payload)[2] * 0x100
            + chunk(payload)[3] == payload.len(),
{
    assert(chunk(payload).skip(4) =~= payload);
}

/// Different sources are told of by different names.
pub proof fn law_sources_have_different_names(a: ScanSourceV, b: ScanSourceV)
    requires
        source_text(a) == source_text(b),
    ensures
        a == b,
{
    reveal_strlit("primary");
    reveal_strlit("ghost:");
    reveal_strlit("ghost_pre:");
    let x = source_text(a);
    let y = source_text(b);
    assert(x[0] == y[0]);
    match (a, b) {
        (ScanSourceV::GhostRecords(m), ScanSourceV::GhostRecords(n)) => {
            assert(x.skip(6) =~= m && y.skip(6) =~= n);
        },
        (ScanSourceV::GhostPreComputed(m), ScanSourceV::GhostPreComputed(n)) => {
            assert(x.skip(10) =~= m && y.skip(10) =~= n);
        },
        (ScanSourceV::GhostRecords(_), ScanSourceV::GhostPreComputed(_)) => {
            assert(x[5] == y[5]);
        },
        (ScanSourceV::GhostPreComputed(_), ScanSourceV::GhostRecords(_)) => {
            assert(x[5] == y[5]);
        },
        _ => {},
    }
}

} // verus!
