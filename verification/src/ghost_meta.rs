//! What is known of a ghost: its definition, its aggregates and its lifecycle.

use crate::aggregate_state;
use crate::aggregate_state::{
    AggregateState, AggregateStateV, Metric, MetricV, Summaries,
};
use crate::ast::{FilterExpr, FilterExprV};
use crate::filter;
use crate::filter::CoreFilterExpr;
use crate::record::Record;
use crate::sorted_map;
use crate::text;
use vstd::prelude::*;

verus! {

/// A write that ghosts are told of.
pub enum WriteType {
    Insert,
    /// A change, with the record and its spatial key before it.
    Update { old_record: Record, old_spatial_key: Vec<u8> },
    Delete,
}

/// A running average of what telling the ghosts of a write costs.
pub struct OverheadTracker {
    avg_hook_ns: u64,
    samples: u64,
}

/// The average after one more sample: the first sample itself, and then 999
/// parts of the average so far to one part of the sample.
pub open spec fn next_average(avg: u64, samples: u64, elapsed_ns: u64) -> u64 {
    if samples == 0 {
        elapsed_ns
    } else {
        ((999 * avg + elapsed_ns) / 1000) as u64
    }
}

impl OverheadTracker {
    /// The average so far, in nanoseconds.
    pub closed spec fn average(&self) -> u64 {
        self.avg_hook_ns
    }

    /// The samples so far.
    pub closed spec fn sample_count(&self) -> u64 {
        self.samples
    }

    /// No sample yet.
    pub fn new() -> (r: Self)
        ensures
            r.average() == 0,
            r.sample_count() == 0,
    {
        OverheadTracker { avg_hook_ns: 0, samples: 0 }
    }

    /// Takes a sample; the count of samples wraps around.
    pub fn update(&mut self, elapsed_ns: u64)
        ensures
            final(self).average() == next_average(
                old(self).average(),
                old(self).sample_count(),
                elapsed_ns,
            ),
            final(self).sample_count() == (old(self).sample_count() + 1)
                % 0x1_0000_0000_0000_0000,
    {
        let count: u64 = self.samples;
        self.samples = count.wrapping_add(1);
        if count == 0 {
            self.avg_hook_ns = elapsed_ns;
        } else {
            let sum: u128 = 999u128 * (self.avg_hook_ns as u128) + (elapsed_ns as u128);
            self.avg_hook_ns = (sum / 1000) as u64;
        }
    }

    /// The average so far, in nanoseconds.
    pub fn avg_hook_ns(&self) -> (n: u64)
        ensures
            n == self.average(),
    {
        self.avg_hook_ns
    }
}

/// The average stays between the average so far and the sample.
pub proof fn law_average_stays_between(avg: u64, samples: u64, elapsed_ns: u64)
    requires
        samples > 0,
    ensures
        avg <= elapsed_ns ==> avg <= next_average(avg, samples, elapsed_ns) <= elapsed_ns,
        elapsed_ns <= avg ==> elapsed_ns <= next_average(avg, samples, elapsed_ns) <= avg,
{
}

/// A ghost found to have outlived its time to live.
#[derive(Clone, Debug, PartialEq, Eq)]
pub struct ExpiredGhost {
    pub name: String,
    pub lobe_id: u16,
}

/// The lifecycle class of a ghost.
#[derive(Clone, Copy, Debug, PartialEq, Eq, Structural)]
pub enum GhostType {
    /// Created by a statement; lives until it is dropped.
    Permanent,
    /// Created from scan telemetry.
    Ephemeral,
    /// An ephemeral ghost that was promoted.
    Promoted,
}

impl Default for GhostType {
    fn default() -> (r: Self)
        ensures
            r == GhostType::Permanent,
    {
        GhostType::Permanent
    }
}

/// The class of a ghost that was created from telemetry.
#[derive(Clone, Copy, Debug, PartialEq, Eq, Structural)]
pub enum AutoClass {
    Ephemeral,
    Promoted,
}

/// How often and when a ghost was used.
#[derive(Clone, Copy, Debug, PartialEq, Eq, Structural)]
pub struct AccessTelemetry {
    /// A use sets the lowest bit; once a day all bits move one place down.
    pub daily_access_bitmap: u32,
    pub access_count_total: u64,
}

/// No access yet.
pub open spec fn no_access() -> AccessTelemetry {
    AccessTelemetry { daily_access_bitmap: 0, access_count_total: 0 }
}

impl Default for AccessTelemetry {
    fn default() -> (r: Self)
        ensures
            r == no_access(),
    {
        AccessTelemetry { daily_access_bitmap: 0, access_count_total: 0 }
    }
}

/// How a ghost came to be and how it ends.
#[derive(Clone, Copy, Debug, PartialEq, Eq, Structural)]
pub enum GhostLifecycle {
    /// Created by a statement: without a time to live or telemetry.
    Declared,
    /// Created from telemetry.
    Auto { class: AutoClass, ttl_seconds: u64, telemetry: AccessTelemetry },
}

impl Default for GhostLifecycle {
    fn default() -> (r: Self)
        ensures
            r == GhostLifecycle::Declared,
    {
        GhostLifecycle::Declared
    }
}

/// The time to live of an ephemeral ghost unless set: one day.
pub const EPHEMERAL_TTL_SECONDS: u64 = 86_400;

/// The lifecycle that a new ghost starts with.
pub open spec fn first_lifecycle(is_auto: bool) -> GhostLifecycle {
    if is_auto {
        GhostLifecycle::Auto {
            class: AutoClass::Ephemeral,
            ttl_seconds: EPHEMERAL_TTL_SECONDS,
            telemetry: no_access(),
        }
    } else {
        GhostLifecycle::Declared
    }
}

/// The lifecycle that a new ghost starts with.
pub fn lifecycle_for(is_auto: bool) -> (r: GhostLifecycle)
    ensures
        r == first_lifecycle(is_auto),
{
    if is_auto {
        GhostLifecycle::Auto {
            class: AutoClass::Ephemeral,
            ttl_seconds: EPHEMERAL_TTL_SECONDS,
            telemetry: AccessTelemetry { daily_access_bitmap: 0, access_count_total: 0 },
        }
    } else {
        GhostLifecycle::Declared
    }
}

/// The class of a lifecycle.
pub open spec fn type_of(l: GhostLifecycle) -> GhostType {
    match l {
        GhostLifecycle::Declared => GhostType::Permanent,
        GhostLifecycle::Auto { class: AutoClass::Ephemeral, .. } => GhostType::Ephemeral,
        GhostLifecycle::Auto { class: AutoClass::Promoted, .. } => GhostType::Promoted,
    }
}

/// The time to live of a lifecycle.
pub open spec fn ttl_of(l: GhostLifecycle) -> Option<u64> {
    match l {
        GhostLifecycle::Declared => None,
        GhostLifecycle::Auto { ttl_seconds, .. } => Some(ttl_seconds),
    }
}

/// The telemetry of a lifecycle.
pub open spec fn telemetry_of(l: GhostLifecycle) -> Option<AccessTelemetry> {
    match l {
        GhostLifecycle::Declared => None,
        GhostLifecycle::Auto { telemetry, .. } => Some(telemetry),
    }
}

/// The lifecycle of a class, with a time to live and telemetry where it has
/// them.
pub open spec fn lifecycle_of(
    ghost_type: GhostType,
    ttl_seconds: Option<u64>,
    telemetry: AccessTelemetry,
) -> GhostLifecycle {
    let ttl = match ttl_seconds {
        Some(t) => t,
        None => EPHEMERAL_TTL_SECONDS,
    };
    match ghost_type {
        GhostType::Permanent => GhostLifecycle::Declared,
        GhostType::Ephemeral => GhostLifecycle::Auto {
            class: AutoClass::Ephemeral,
            ttl_seconds: ttl,
            telemetry,
        },
        GhostType::Promoted => GhostLifecycle::Auto {
            class: AutoClass::Promoted,
            ttl_seconds: ttl,
            telemetry,
        },
    }
}

/// The lifecycle of a class, with a time to live and telemetry where it has
/// them.
pub fn make_lifecycle(
    ghost_type: GhostType,
    ttl_seconds: Option<u64>,
    telemetry: AccessTelemetry,
) -> (r: GhostLifecycle)
    ensures
        r == lifecycle_of(ghost_type, ttl_seconds, telemetry),
{
    let ttl: u64 = match ttl_seconds {
        Some(t) => t,
        None => EPHEMERAL_TTL_SECONDS,
    };
    match ghost_type {
        GhostType::Permanent => GhostLifecycle::Declared,
        GhostType::Ephemeral => GhostLifecycle::Auto {
            class: AutoClass::Ephemeral,
            ttl_seconds: ttl,
            telemetry,
        },
        GhostType::Promoted => GhostLifecycle::Auto {
            class: AutoClass::Promoted,
            ttl_seconds: ttl,
            telemetry,
        },
    }
}

/// A lifecycle is what its class, time to live and telemetry make.
pub proof fn law_lifecycle_is_its_parts(l: GhostLifecycle)
    ensures
        l == lifecycle_of(
            type_of(l),
            ttl_of(l),
            match telemetry_of(l) {
                Some(t) => t,
                None => no_access(),
            },
        ),
{
}

/// Where the states of a ghost's groups are.
#[derive(Debug)]
pub enum Residency {
    /// In memory, possibly without any group yet.
    InRam(Summaries),
    /// In the rollups of the dictionary.
    Spilled,
}

/// What a [`Residency`] stands for.
pub enum ResidencyV {
    InRam(Map<Seq<char>, AggregateStateV>),
    Spilled,
}

impl View for Residency {
    type V = ResidencyV;

    open spec fn view(&self) -> ResidencyV {
        match self {
            Residency::InRam(m) => ResidencyV::InRam(aggregate_state::summaries_view(m@)),
            Residency::Spilled => ResidencyV::Spilled,
        }
    }
}

/// Whether an aggregate is over all members or for each group.
#[derive(Clone, Debug, PartialEq, Eq)]
pub enum Grouping {
    Global,
    /// By these fields, of which there is at least one.
    Grouped(Vec<String>),
}

impl Grouping {
    /// A grouping has fields.
    pub open spec fn wf(&self) -> bool {
        self matches Grouping::Grouped(v) ==> v@.len() > 0
    }

    /// The fields of the groups; none where there are no groups.
    pub open spec fn names(&self) -> Seq<Seq<char>> {
        match self {
            Grouping::Global => Seq::empty(),
            Grouping::Grouped(v) => text::names(v@),
        }
    }

    /// The grouping by the fields; without a field there are no groups.
    pub fn from_fields(fields: Vec<String>) -> (r: Self)
        ensures
            r.wf(),
            r.names() == text::names(fields@),
            r is Global <==> fields@.len() == 0,
    {
        if fields.is_empty() {
            assert(text::names(fields@) =~= Seq::<Seq<char>>::empty());
            Grouping::Global
        } else {
            Grouping::Grouped(fields)
        }
    }

    /// The fields of the groups; none where there are no groups.
    pub fn fields(&self) -> (r: &[String])
        ensures
            text::names(r@) == self.names(),
    {
        match self {
            Grouping::Global => {
                let none: &[String] = &[];
                assert(text::names(none@) =~= Seq::<Seq<char>>::empty());
                none
            },
            Grouping::Grouped(v) => v.as_slice(),
        }
    }

    /// Whether there are groups.
    pub fn is_grouped(&self) -> (r: bool)
        requires
            self.wf(),
        ensures
            r == (self.names().len() > 0),
    {
        match self {
            Grouping::Global => false,
            Grouping::Grouped(_) => true,
        }
    }
}

/// A grouping's fields give the grouping back.
pub proof fn law_grouping_round_trip(g: Grouping, h: Grouping)
    requires
        g.wf(),
        h.wf(),
        g.names() == h.names(),
    ensures
        g is Global <==> h is Global,
{
    if let Grouping::Grouped(v) = g {
        assert(g.names().len() == v@.len());
    }
    if let Grouping::Grouped(v) = h {
        assert(h.names().len() == v@.len());
    }
}

/// What a ghost computes besides its entries.
#[derive(Debug)]
pub struct AggregateContent {
    pub aggregate_specs: Vec<Metric>,
    /// Over all members.
    pub global_aggregates: AggregateState,
    pub grouping: Grouping,
    /// For each group.
    pub residency: Residency,
}

/// What an [`AggregateContent`] stands for.
pub struct AggregateContentV {
    pub specs: Seq<MetricV>,
    pub global: AggregateStateV,
    pub group_fields: Seq<Seq<char>>,
    pub residency: ResidencyV,
}

impl View for AggregateContent {
    type V = AggregateContentV;

    open spec fn view(&self) -> AggregateContentV {
        AggregateContentV {
            specs: aggregate_state::metrics_view(self.aggregate_specs@),
            global: self.global_aggregates@,
            group_fields: self.grouping.names(),
            residency: self.residency@,
        }
    }
}

/// The metric by which a ghost keeps its groups ordered.
#[derive(Clone, Debug, PartialEq, Eq)]
pub struct MetricOrder {
    pub label: String,
    pub descending: bool,
}

/// What a [`MetricOrder`] says.
pub struct MetricOrderV {
    pub label: Seq<char>,
    pub descending: bool,
}

impl View for MetricOrder {
    type V = MetricOrderV;

    open spec fn view(&self) -> MetricOrderV {
        MetricOrderV { label: self.label@, descending: self.descending }
    }
}

/// What an optional order says.
pub open spec fn opt_order(o: Option<MetricOrder>) -> Option<MetricOrderV> {
    match o {
        Some(m) => Some(m@),
        None => None,
    }
}

/// A copy of an optional order.
pub fn clone_order(o: &Option<MetricOrder>) -> (r: Option<MetricOrder>)
    ensures
        opt_order(r) == opt_order(*o),
{
    match o {
        Some(m) => Some(MetricOrder { label: m.label.clone(), descending: m.descending }),
        None => None,
    }
}

/// The state of a ghost that takes writes and answers queries.
pub const STATE_READY: u8 = 1;

/// The state of a ghost that takes no writes.
pub const STATE_PAUSED: u8 = 2;

/// What is known of a ghost.
#[derive(Debug)]
pub struct GhostMeta {
    pub name: String,
    pub ghost_id: u16,
    pub version: u8,
    pub lobe_id: u16,
    pub source_lobe: String,
    /// Which records are members.
    pub filter: FilterExpr,
    pub order_by_field: String,
    pub sort_inverted: bool,
    pub metric_order: Option<MetricOrder>,
    /// When the order by metric was last written out; `None` while it is stale.
    pub order_emitted_at: Option<i64>,
    /// 0 while building, 1 when ready, 2 while paused.
    pub state: u8,
    pub index_count: u64,
    /// `None` for a ghost that computes no aggregate.
    pub aggregate: Option<AggregateContent>,
    /// The fields that the entries embed.
    pub projection: Vec<String>,
    pub created_at: i64,
    pub last_accessed: i64,
    pub incremental_updates: u64,
    pub lifecycle: GhostLifecycle,
    /// The membership predicate ready for evaluation, once it was needed.
    pub core_filters_cache: Option<CoreFilterExpr>,
    /// Whether keeping the ghost up to date failed since it was loaded.
    pub maintenance_degraded: bool,
}

/// What a [`GhostMeta`] stands for.
pub struct GhostMetaV {
    pub name: Seq<char>,
    pub ghost_id: u16,
    pub version: u8,
    pub lobe_id: u16,
    pub source_lobe: Seq<char>,
    pub filter: FilterExprV,
    pub order_by_field: Seq<char>,
    pub sort_inverted: bool,
    pub metric_order: Option<MetricOrderV>,
    pub order_emitted_at: Option<i64>,
    pub state: u8,
    pub index_count: u64,
    pub aggregate: Option<AggregateContentV>,
    pub projection: Seq<Seq<char>>,
    pub created_at: i64,
    pub last_accessed: i64,
    pub incremental_updates: u64,
    pub lifecycle: GhostLifecycle,
    pub maintenance_degraded: bool,
}

/// What an optional aggregate stands for.
pub open spec fn opt_aggregate(a: Option<AggregateContent>) -> Option<AggregateContentV> {
    match a {
        Some(c) => Some(c@),
        None => None,
    }
}

impl View for GhostMeta {
    type V = GhostMetaV;

    open spec fn view(&self) -> GhostMetaV {
        GhostMetaV {
            name: self.name@,
            ghost_id: self.ghost_id,
            version: self.version,
            lobe_id: self.lobe_id,
            source_lobe: self.source_lobe@,
            filter: self.filter@,
            order_by_field: self.order_by_field@,
            sort_inverted: self.sort_inverted,
            metric_order: opt_order(self.metric_order),
            order_emitted_at: self.order_emitted_at,
            state: self.state,
            index_count: self.index_count,
            aggregate: opt_aggregate(self.aggregate),
            projection: text::names(self.projection@),
            created_at: self.created_at,
            last_accessed: self.last_accessed,
            incremental_updates: self.incremental_updates,
            lifecycle: self.lifecycle,
            maintenance_degraded: self.maintenance_degraded,
        }
    }
}

/// The state of some group may be stale.
pub open spec fn some_dirty(m: Map<Seq<char>, AggregateStateV>) -> bool {
    exists|k: Seq<char>| #[trigger] m.contains_key(k) && m[k].dirty
}

impl GhostMetaV {
    /// The fields of the groups; none where there are no groups.
    pub open spec fn group_fields(&self) -> Seq<Seq<char>> {
        match self.aggregate {
            Some(a) => a.group_fields,
            None => Seq::empty(),
        }
    }

    /// The aggregates may be stale: the one over all members or one of a group
    /// in memory.
    pub open spec fn stale(&self) -> bool {
        match self.aggregate {
            Some(a) => a.global.dirty || (a.residency matches ResidencyV::InRam(m)
                && some_dirty(m)),
            None => false,
        }
    }
}

impl GhostMeta {
    /// A grouping has fields, and the prepared predicate is that of the ghost.
    pub open spec fn wf(&self) -> bool {
        &&& self.aggregate matches Some(a) ==> a.grouping.wf()
        &&& self.core_filters_cache matches Some(c) ==> c@ == filter::core_tree(self.filter@)
    }

    /// Whether the aggregates may be stale.
    pub fn aggregates_dirty(&self) -> (r: bool)
        ensures
            r == self@.stale(),
    {
        match &self.aggregate {
            None => false,
            Some(agg) => {
                if agg.global_aggregates.dirty {
                    return true;
                }
                match &agg.residency {
                    Residency::Spilled => false,
                    Residency::InRam(m) => any_dirty(m),
                }
            },
        }
    }

    /// The fields of the groups; none where there are no groups.
    pub fn group_fields(&self) -> (r: &[String])
        ensures
            text::names(r@) == self@.group_fields(),
    {
        match &self.aggregate {
            Some(agg) => agg.grouping.fields(),
            None => {
                let none: &[String] = &[];
                assert(text::names(none@) =~= Seq::<Seq<char>>::empty());
                none
            },
        }
    }

    /// Whether the ghost computes aggregates.
    pub fn is_aggregate(&self) -> (r: bool)
        ensures
            r == (self@.aggregate is Some),
    {
        self.aggregate.is_some()
    }

    /// Whether the ghost computes aggregates for each group.
    pub fn is_grouped(&self) -> (r: bool)
        requires
            self.wf(),
        ensures
            r == (self@.group_fields().len() > 0),
    {
        match &self.aggregate {
            Some(a) => a.grouping.is_grouped(),
            None => false,
        }
    }

    /// Whether the entries embed fields.
    pub fn has_projection(&self) -> (r: bool)
        ensures
            r == (self@.projection.len() > 0),
    {
        self.projection.len() > 0
    }

    /// The ghost's class.
    pub fn ghost_type(&self) -> (r: GhostType)
        ensures
            r == type_of(self@.lifecycle),
    {
        match &self.lifecycle {
            GhostLifecycle::Declared => GhostType::Permanent,
            GhostLifecycle::Auto { class, .. } => match class {
                AutoClass::Ephemeral => GhostType::Ephemeral,
                AutoClass::Promoted => GhostType::Promoted,
            },
        }
    }

    /// The time to live in seconds; `None` for a declared ghost.
    pub fn ttl_seconds(&self) -> (r: Option<u64>)
        ensures
            r == ttl_of(self@.lifecycle),
    {
        match &self.lifecycle {
            GhostLifecycle::Declared => None,
            GhostLifecycle::Auto { ttl_seconds, .. } => Some(*ttl_seconds),
        }
    }

    /// Whether the ghost was created from telemetry.
    pub fn is_auto(&self) -> (r: bool)
        ensures
            r == (self@.lifecycle is Auto),
    {
        match &self.lifecycle {
            GhostLifecycle::Declared => false,
            GhostLifecycle::Auto { .. } => true,
        }
    }

    /// The telemetry; `None` for a declared ghost.
    pub fn telemetry(&self) -> (r: Option<&AccessTelemetry>)
        ensures
            match r {
                Some(t) => telemetry_of(self@.lifecycle) == Some(*t),
                None => telemetry_of(self@.lifecycle) is None,
            },
    {
        match &self.lifecycle {
            GhostLifecycle::Declared => None,
            GhostLifecycle::Auto { telemetry, .. } => Some(telemetry),
        }
    }

    /// The telemetry, to be changed; `None` for a declared ghost.
    pub fn telemetry_mut(&mut self) -> (r: Option<&mut AccessTelemetry>)
        ensures
            match r {
                Some(t) => telemetry_of(old(self)@.lifecycle) == Some(*t) && final(self)@ == (
                GhostMetaV {
                    lifecycle: lifecycle_of(
                        type_of(old(self)@.lifecycle),
                        ttl_of(old(self)@.lifecycle),
                        *final(t),
                    ),
                    ..old(self)@
                }),
                None => telemetry_of(old(self)@.lifecycle) is None && final(self)@ == old(self)@,
            },
            old(self).wf() ==> final(self).wf(),
    {
        match &mut self.lifecycle {
            GhostLifecycle::Declared => None,
            GhostLifecycle::Auto { telemetry, .. } => Some(telemetry),
        }
    }

    /// Sets class and time to live, and keeps the telemetry.
    pub fn set_lifecycle(&mut self, ghost_type: GhostType, ttl_seconds: Option<u64>)
        ensures
            final(self)@ == (GhostMetaV {
                lifecycle: lifecycle_of(
                    ghost_type,
                    ttl_seconds,
                    match telemetry_of(old(self)@.lifecycle) {
                        Some(t) => t,
                        None => no_access(),
                    },
                ),
                ..old(self)@
            }),
            old(self).wf() ==> final(self).wf(),
    {
        let telemetry = match &self.lifecycle {
            GhostLifecycle::Declared => AccessTelemetry {
                daily_access_bitmap: 0,
                access_count_total: 0,
            },
            GhostLifecycle::Auto { telemetry, .. } => *telemetry,
        };
        self.lifecycle = make_lifecycle(ghost_type, ttl_seconds, telemetry);
    }

    /// Prepares the membership predicate for evaluation, once: what is already
    /// prepared stays.
    pub fn ensure_core_filters(&mut self)
        requires
            crate::ast::expr_bound(old(self)@.filter),
        ensures
            final(self)@ == old(self)@,
            match old(self).core_filters_cache {
                Some(c) => final(self).core_filters_cache == Some(c),
                None => final(self).core_filters_cache matches Some(c) && c@ == filter::core_tree(
                    old(self)@.filter,
                ),
            },
            old(self).wf() ==> final(self).wf(),
    {
        if self.core_filters_cache.is_none() {
            self.core_filters_cache = Some(filter::to_core_expr(&self.filter));
        }
    }
}

/// Whether a group's state may be stale.
fn any_dirty(m: &Summaries) -> (r: bool)
    ensures
        r == some_dirty(aggregate_state::summaries_view(m@)),
{
    proof {
        use_type_invariant(m);
        m.lemma_listed();
    }
    let ghost listed = m.listed();
    let mut i: usize = 0;
    while i < m.len()
        invariant
            i <= listed.len(),
            listed == m.listed(),
            sorted_map::names_increase(listed),
            m@ == sorted_map::entries_map(listed),
            forall|j: int| 0 <= j < i ==> !(#[trigger] listed[j]).1.dirty,
        decreases listed.len() - i,
    {
        if m.value_at(i).dirty {
            proof {
                let k = listed[i as int].0@;
                sorted_map::lemma_entry_in_map(listed, i as int);
                assert(aggregate_state::summaries_view(m@).contains_key(k));
            }
            return true;
        }
        i = i + 1;
    }
    proof {
        assert forall|k: Seq<char>| #[trigger]
            aggregate_state::summaries_view(m@).contains_key(
                k,
            ) implies !aggregate_state::summaries_view(m@)[k].dirty by {
            let j = choose|j: int| sorted_map::holds_at(listed, k, j);
            sorted_map::lemma_entry_in_map(listed, j);
        }
    }
    false
}

/// How many conditions a predicate has.
pub open spec fn condition_count(e: FilterExprV) -> nat
    decreases e, 1nat,
{
    match e {
        FilterExprV::Condition(_) => 1,
        FilterExprV::And(v) => condition_counts(v, v.len()),
        FilterExprV::Or(v) => condition_counts(v, v.len()),
        FilterExprV::Not(x) => condition_count(*x),
    }
}

/// How many conditions the first `n` predicates have.
pub open spec fn condition_counts(v: Seq<FilterExprV>, n: nat) -> nat
    decreases v, 0nat, n,
{
    if n == 0 || n > v.len() {
        0
    } else {
        condition_counts(v, (n - 1) as nat) + condition_count(v[n - 1])
    }
}

/// The number, or the largest one that fits.
pub open spec fn at_most_max(n: nat) -> usize {
    if n <= usize::MAX {
        n as usize
    } else {
        usize::MAX
    }
}

fn members_condition_count(v: &Vec<FilterExpr>) -> (r: usize)
    ensures
        r == at_most_max(condition_counts(crate::ast::exprs_view(v@), v@.len())),
    decreases v,
{
    let ghost es = crate::ast::exprs_view(v@);
    let mut n: usize = 0;
    let mut i: usize = 0;
    while i < v.len()
        invariant
            i <= v@.len(),
            es == crate::ast::exprs_view(v@),
            n == at_most_max(condition_counts(es, i as nat)),
        decreases v@.len() - i,
    {
        let m: usize = filter_expr_condition_count(&v[i]);
        assert(es[i as int] == v@[i as int]@);
        assert(condition_counts(es, (i + 1) as nat) == condition_counts(es, i as nat)
            + condition_count(es[i as int]));
        n = n.saturating_add(m);
        i = i + 1;
    }
    n
}

/// How many conditions a predicate has.
pub fn filter_expr_condition_count(e: &FilterExpr) -> (r: usize)
    ensures
        r == at_most_max(condition_count(e@)),
    decreases e,
{
    match e {
        FilterExpr::Condition(_) => 1,
        FilterExpr::And(v) => members_condition_count(v),
        FilterExpr::Or(v) => members_condition_count(v),
        FilterExpr::Not(x) => filter_expr_condition_count(x),
    }
}

/// A predicate has as many conditions as its members have together.
pub proof fn law_conditions_add_up(v: Seq<FilterExprV>, e: FilterExprV)
    ensures
        condition_count(FilterExprV::Not(Box::new(e))) == condition_count(e),
        condition_count(FilterExprV::And(v)) == condition_count(FilterExprV::Or(v)),
        condition_count(FilterExprV::And(seq![e])) == condition_count(e),
        condition_count(FilterExprV::And(Seq::empty())) == 0,
{
    reveal_with_fuel(condition_counts, 3);
    reveal_with_fuel(condition_count, 3);
    let one = seq![e];
    assert(one.len() == 1);
    assert(condition_counts(one, 1) == condition_counts(one, 0) + condition_count(one[0]));
}

/// A ghost that is declared lives without limit; one that is made for a pattern starts
/// as an ephemeral one with nothing counted.
pub proof fn law_new_ghost_starts_unused(is_auto: bool)
    ensures
        !is_auto ==> first_lifecycle(is_auto) is Declared,
        is_auto ==> (first_lifecycle(is_auto) matches GhostLifecycle::Auto {
            class: AutoClass::Ephemeral,
            ttl_seconds,
            telemetry,
        } && ttl_seconds == 86_400 && telemetry.daily_access_bitmap == 0
            && telemetry.access_count_total == 0),
{
}

/// The average moves by a thousandth of the difference to each sample, rounded down, and
/// starts at the first one.
pub proof fn law_average_moves_by_a_thousandth(avg: u64, samples: u64, elapsed_ns: u64)
    ensures
        samples == 0 ==> next_average(avg, samples, elapsed_ns) == elapsed_ns,
        samples > 0 ==> 1000 * next_average(avg, samples, elapsed_ns) <= 999 * avg + elapsed_ns
            < 1000 * (next_average(avg, samples, elapsed_ns) + 1),
{
}

/// An ephemeral ghost lives for a day without use.
pub proof fn law_ephemeral_lives_a_day(l: GhostLifecycle)
    requires
        l == first_lifecycle(true),
    ensures
        ttl_of(l) == Some((24 * 60 * 60) as u64),
        type_of(l) == GhostType::Ephemeral,
{
}

} // verus!
