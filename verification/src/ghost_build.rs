//! Building ghosts from the records of their lobe.
//!
//! A build takes the records one by one. For each member it gives the entry to
//! be written and the groups to be moved out of memory; at the end it gives
//! what is known of the ghost.

use crate::aggregate_state;
use crate::aggregate_state::{AggregateState, AggregateStateV, Metric, MetricV, Summaries};
use crate::ast;
use crate::ast::{FilterExpr, FilterExprV};
use crate::bytes;
use crate::error::XyzError;
use crate::filter;
use crate::filter::CoreFilterExpr;
use crate::ghost_meta;
use crate::ghost_meta::{
    AggregateContent, AggregateContentV, GhostMeta, GhostMetaV, Grouping, MetricOrder,
    MetricOrderV, Residency, ResidencyV, STATE_READY,
};
use crate::ghost_ops::GhostOps;
use crate::ghost_spill;
use crate::ghost_spill::{RollupSpiller, RollupWrite};
use crate::ghost_store::GhostLobeManager;
use crate::record::{Fields, FilterOp, Record, RecordV};
use crate::sort;
use crate::sorted_map::SortedMap;
use crate::text;
use crate::value::Value;
use vstd::prelude::*;

verus! {

/// What a ghost is to be.
#[derive(Debug)]
pub struct GhostSpec {
    pub name: String,
    pub filter: FilterExpr,
    pub order_by_field: String,
    pub sort_inverted: bool,
    pub is_auto: bool,
    pub aggregate_specs: Vec<Metric>,
    pub group_fields: Vec<String>,
    /// The fields that the entries embed; without any an entry is a reference.
    pub projection: Vec<String>,
    pub metric_order: Option<MetricOrder>,
}

/// What a [`GhostSpec`] says.
pub struct GhostSpecV {
    pub name: Seq<char>,
    pub filter: FilterExprV,
    pub order_by_field: Seq<char>,
    pub sort_inverted: bool,
    pub is_auto: bool,
    pub aggregate_specs: Seq<MetricV>,
    pub group_fields: Seq<Seq<char>>,
    pub projection: Seq<Seq<char>>,
    pub metric_order: Option<MetricOrderV>,
}

impl View for GhostSpec {
    type V = GhostSpecV;

    open spec fn view(&self) -> GhostSpecV {
        GhostSpecV {
            name: self.name@,
            filter: self.filter@,
            order_by_field: self.order_by_field@,
            sort_inverted: self.sort_inverted,
            is_auto: self.is_auto,
            aggregate_specs: aggregate_state::metrics_view(self.aggregate_specs@),
            group_fields: text::names(self.group_fields@),
            projection: text::names(self.projection@),
            metric_order: ghost_meta::opt_order(self.metric_order),
        }
    }
}

impl GhostSpecV {
    /// The ghost computes aggregates for groups.
    pub open spec fn has_groups(&self) -> bool {
        self.aggregate_specs.len() > 0 && self.group_fields.len() > 0
    }
}

/// A ghost under construction.
pub struct GhostBuild {
    ghost_id: u16,
    spec: GhostSpec,
    core_filter: CoreFilterExpr,
    index_count: u64,
    global_agg: AggregateState,
    group_summaries: Summaries,
    spiller: RollupSpiller,
}

/// What a [`GhostBuild`] holds.
pub struct GhostBuildV {
    pub ghost_id: u16,
    pub spec: GhostSpecV,
    pub index_count: u64,
    pub global: AggregateStateV,
    /// The groups in memory.
    pub groups: Map<Seq<char>, AggregateStateV>,
    /// How many groups may stay in memory.
    pub limit: usize,
    /// Groups were moved out of memory.
    pub spilled: bool,
}

impl View for GhostBuild {
    type V = GhostBuildV;

    closed spec fn view(&self) -> GhostBuildV {
        GhostBuildV {
            ghost_id: self.ghost_id,
            spec: self.spec@,
            index_count: self.index_count,
            global: self.global_agg@,
            groups: aggregate_state::summaries_view(self.group_summaries@),
            limit: self.spiller.max_groups(),
            spilled: self.spiller.count() > 0,
        }
    }
}

/// What is to be written for a member.
pub struct BuildEntry {
    pub key: Vec<u8>,
    pub value: Vec<u8>,
    /// The groups that leave memory.
    pub rollups: Vec<RollupWrite>,
}

impl GhostBuild {
    /// The predicate is prepared, and the groups are moved under the ghost's
    /// number.
    pub closed spec fn wf(&self) -> bool {
        &&& self.core_filter@ == filter::core_tree(self.spec@.filter)
        &&& self.spiller.id() == self.ghost_id
    }

    /// A build without any member yet.
    pub fn new(ghost_id: u16, spec: GhostSpec, limit: usize) -> (r: Self)
        requires
            ast::expr_bound(spec@.filter),
        ensures
            r.wf(),
            r@ == (GhostBuildV {
                ghost_id,
                spec: spec@,
                index_count: 0,
                global: aggregate_state::no_records(),
                groups: Map::empty(),
                limit,
                spilled: false,
            }),
    {
        let core_filter = filter::to_core_expr(&spec.filter);
        let r = GhostBuild {
            ghost_id,
            spec,
            core_filter,
            index_count: 0,
            global_agg: AggregateState::default(),
            group_summaries: SortedMap::new(),
            spiller: RollupSpiller::new(ghost_id, limit),
        };
        assert(r@.groups =~= Map::<Seq<char>, AggregateStateV>::empty());
        r
    }

    /// The number of the ghost.
    pub fn ghost_id(&self) -> (id: u16)
        ensures
            id == self@.ghost_id,
    {
        self.ghost_id
    }

    /// The groups in memory; `None` once groups were moved out.
    pub fn groups(&self) -> (r: Option<&Summaries>)
        ensures
            match r {
                Some(m) => !self@.spilled && aggregate_state::summaries_view(m@) == self@.groups,
                None => self@.spilled,
            },
    {
        if self.spiller.spilled() {
            None
        } else {
            Some(&self.group_summaries)
        }
    }

    /// What the ghost is to be.
    pub fn spec(&self) -> (r: &GhostSpec)
        ensures
            r@ == self@.spec,
    {
        &self.spec
    }

    /// Ends the scan: the remaining groups leave memory if others did before.
    pub fn end_scan(&mut self) -> (w: Vec<RollupWrite>)
        requires
            old(self).wf(),
        ensures
            final(self).wf(),
            final(self)@ == (GhostBuildV {
                groups: if old(self)@.spilled {
                    Map::empty()
                } else {
                    old(self)@.groups
                },
                ..old(self)@
            }),
            if old(self)@.spilled {
                ghost_spill::moves_groups(
                    ghost_spill::writes_view(w@),
                    old(self)@.ghost_id,
                    old(self)@.groups,
                )
            } else {
                w@.len() == 0
            },
    {
        let w = self.spiller.finalize(&mut self.group_summaries);
        assert(aggregate_state::summaries_view(Map::<Seq<char>, AggregateState>::empty())
            =~= Map::<Seq<char>, AggregateStateV>::empty());
        w
    }

    /// What is known of the ghost once it is built. `emitted` says whether the
    /// order by metric, where one is declared, was written out.
    pub fn finish(self, lobe_id: u16, source_lobe: &str, now: i64, emitted: bool) -> (r: GhostMeta)
        requires
            self.wf(),
        ensures
            r.wf(),
            r@ == built_meta(self@, lobe_id, source_lobe@, now, emitted),
    {
        let spilled = self.spiller.spilled();
        let spec = self.spec;
        let order_emitted_at: Option<i64> = if spec.metric_order.is_some() && emitted {
            Some(now)
        } else {
            None
        };
        let aggregate = if spec.aggregate_specs.len() == 0 {
            None
        } else {
            Some(
                AggregateContent {
                    aggregate_specs: spec.aggregate_specs,
                    global_aggregates: self.global_agg,
                    grouping: Grouping::from_fields(spec.group_fields),
                    residency: if spilled {
                        Residency::Spilled
                    } else {
                        Residency::InRam(self.group_summaries)
                    },
                },
            )
        };
        GhostMeta {
            name: spec.name,
            ghost_id: self.ghost_id,
            version: 2,
            lobe_id,
            source_lobe: source_lobe.to_owned(),
            filter: spec.filter,
            order_by_field: spec.order_by_field,
            sort_inverted: spec.sort_inverted,
            metric_order: spec.metric_order,
            order_emitted_at,
            state: STATE_READY,
            index_count: self.index_count,
            aggregate,
            projection: spec.projection,
            created_at: now,
            last_accessed: now,
            incremental_updates: 0,
            lifecycle: ghost_meta::lifecycle_for(spec.is_auto),
            core_filters_cache: None,
            maintenance_degraded: false,
        }
    }
}

/// What is known of a ghost once it is built.
pub open spec fn built_meta(
    b: GhostBuildV,
    lobe_id: u16,
    source_lobe: Seq<char>,
    now: i64,
    emitted: bool,
) -> GhostMetaV {
    GhostMetaV {
        name: b.spec.name,
        ghost_id: b.ghost_id,
        version: 2,
        lobe_id,
        source_lobe,
        filter: b.spec.filter,
        order_by_field: b.spec.order_by_field,
        sort_inverted: b.spec.sort_inverted,
        metric_order: b.spec.metric_order,
        order_emitted_at: if b.spec.metric_order is Some && emitted {
            Some(now)
        } else {
            None
        },
        state: STATE_READY,
        index_count: b.index_count,
        aggregate: if b.spec.aggregate_specs.len() == 0 {
            None
        } else {
            Some(
                AggregateContentV {
                    specs: b.spec.aggregate_specs,
                    global: b.global,
                    group_fields: b.spec.group_fields,
                    residency: if b.spilled {
                        ResidencyV::Spilled
                    } else {
                        ResidencyV::InRam(b.groups)
                    },
                },
            )
        },
        projection: b.spec.projection,
        created_at: now,
        last_accessed: now,
        incremental_updates: 0,
        lifecycle: ghost_meta::first_lifecycle(b.spec.is_auto),
        maintenance_degraded: false,
    }
}

/// What a user is told of a new ghost.
pub open spec fn created_text(g: GhostMetaV) -> Seq<char> {
    "Ghost '"@ + g.name + "' created: "@ + text::decimal(g.index_count as int)
        + " index entries from '"@ + g.source_lobe + "' ordered by '"@ + g.order_by_field + "' "@ + (
    if g.sort_inverted {
        "DESC"@
    } else {
        "ASC"@
    })
}

/// What a user is told of a new ghost.
pub fn created_message(meta: &GhostMeta) -> (r: String)
    ensures
        r@ == created_text(meta@),
{
    let dir = if meta.sort_inverted {
        "DESC"
    } else {
        "ASC"
    };
    let count = text::decimal_text(meta.index_count as i128);
    let a = text::join3("Ghost '", meta.name.as_str(), "' created: ");
    let b = text::join3(a.as_str(), count.as_str(), " index entries from '");
    let c = text::join3(b.as_str(), meta.source_lobe.as_str(), "' ordered by '");
    let d = text::join3(c.as_str(), meta.order_by_field.as_str(), "' ");
    text::join2(d.as_str(), dir)
}

impl<
    K: Fn(&Fields, &[String]) -> String,
    T: Fn(u16, Option<&Value>, bool, &[u8]) -> Vec<u8>,
    P: Fn(&Value) -> Option<Vec<u8>>,
    U: Fn(&[u8]) -> Option<Value>,
    A: Fn(&AggregateState, &Record, &Vec<Metric>) -> AggregateState,
    S: Fn(&AggregateState, &Record, &Vec<Metric>) -> AggregateState,
> GhostOps<K, T, P, U, A, S> {
    /// The groups of a build with a member taken in.
    pub open spec fn build_groups(&self, b: GhostBuildV, r: RecordV) -> Map<
        Seq<char>,
        AggregateStateV,
    > {
        if b.spec.has_groups() {
            self.group_added(
                b.groups,
                self.group_key_of(r.fields, b.spec.group_fields),
                r,
                b.spec.aggregate_specs,
            )
        } else {
            b.groups
        }
    }

    /// The groups have become too many for memory.
    pub open spec fn build_spills(&self, b: GhostBuildV, r: RecordV) -> bool {
        b.spec.has_groups() && self.build_groups(b, r).dom().len() > b.limit
    }

    /// The build with a member taken in.
    pub open spec fn fed(&self, b: GhostBuildV, r: RecordV) -> GhostBuildV {
        GhostBuildV {
            index_count: ((b.index_count + 1) % 0x1_0000_0000_0000_0000) as u64,
            global: if b.spec.aggregate_specs.len() > 0 {
                self.added(b.global, r, b.spec.aggregate_specs)
            } else {
                b.global
            },
            groups: if self.build_spills(b, r) {
                Map::empty()
            } else {
                self.build_groups(b, r)
            },
            spilled: b.spilled || self.build_spills(b, r),
            ..b
        }
    }

    /// Takes a record into a build, if it is a member, and gives what is to be
    /// written for it. `leaf` says which single predicates the record
    /// satisfies.
    pub fn feed_build<L: Fn(&(String, FilterOp, Value)) -> bool>(
        &self,
        build: &mut GhostBuild,
        record: &Record,
        spatial_key: &[u8],
        leaf: &L,
    ) -> (r: Option<BuildEntry>)
        requires
            self.sound(),
            old(build).wf(),
            filter::decides(*leaf),
        ensures
            final(build).wf(),
            if filter::holds(filter::core_tree(old(build)@.spec.filter), filter::verdicts(*leaf)) {
                &&& final(build)@ == self.fed(old(build)@, record@)
                &&& r matches Some(e) && e.key@ == self.entry_key(
                    old(build)@.ghost_id,
                    old(build)@.spec.order_by_field,
                    old(build)@.spec.sort_inverted,
                    old(build)@.spec.group_fields,
                    record@.fields,
                    spatial_key@,
                ) && e.value@ == self.entry_value(
                    spatial_key@,
                    record@.fields,
                    old(build)@.spec.projection,
                ) && if self.build_spills(old(build)@, record@) {
                    ghost_spill::moves_groups(
                        ghost_spill::writes_view(e.rollups@),
                        old(build)@.ghost_id,
                        self.build_groups(old(build)@, record@),
                    )
                } else {
                    e.rollups@.len() == 0
                }
            } else {
                &&& r is None
                &&& final(build)@ == old(build)@
            },
    {
        if !filter::matches_core_expr(&build.core_filter, leaf) {
            return None;
        }
        let ghost b = build@;
        let key = self.make_entry_key(
            build.ghost_id,
            build.spec.order_by_field.as_str(),
            build.spec.sort_inverted,
            build.spec.group_fields.as_slice(),
            record,
            spatial_key,
        );
        let value = self.encode_ghost_value(
            spatial_key,
            record,
            build.spec.projection.as_slice(),
        );
        let mut rollups: Vec<RollupWrite> = Vec::new();
        if build.spec.aggregate_specs.len() > 0 {
            build.global_agg = self.add_record(
                &build.global_agg,
                record,
                &build.spec.aggregate_specs,
            );
            if build.spec.group_fields.len() > 0 {
                let gk = self.extract_group_key(
                    &record.fields,
                    build.spec.group_fields.as_slice(),
                );
                self.add_to_group(
                    &mut build.group_summaries,
                    gk,
                    record,
                    &build.spec.aggregate_specs,
                );
                let ghost grown = build.group_summaries@;
                assert(aggregate_state::summaries_view(grown) == self.build_groups(b, record@));
                assert(aggregate_state::summaries_view(grown).dom() =~= grown.dom());
                rollups = build.spiller.maybe_spill(&mut build.group_summaries);
                assert(aggregate_state::summaries_view(
                    Map::<Seq<char>, AggregateState>::empty(),
                ) =~= Map::<Seq<char>, AggregateStateV>::empty());
            }
        }
        build.index_count = build.index_count.wrapping_add(1);
        assert(build@ == self.fed(b, record@));
        Some(BuildEntry { key, value, rollups })
    }
}

/// A ghost whose groups left memory has none left there: either all its groups
/// are in memory or none is.
pub proof fn law_residency_is_uniform(b: GhostBuildV, lobe_id: u16, source: Seq<char>, now: i64)
    requires
        b.spec.aggregate_specs.len() > 0,
        b.spilled ==> b.groups == Map::<Seq<char>, AggregateStateV>::empty(),
    ensures
        built_meta(b, lobe_id, source, now, true).aggregate matches Some(a) && match a.residency {
            ResidencyV::Spilled => b.groups == Map::<Seq<char>, AggregateStateV>::empty(),
            ResidencyV::InRam(m) => m == b.groups && !b.spilled,
        },
{
}

/// Entries waiting to be written out in the order of their keys.
pub struct EntryBuffer {
    entries: Vec<(Vec<u8>, Vec<u8>, u64)>,
    size: usize,
}

/// The number, or the largest one that fits.
pub open spec fn sum_or_max(a: int, b: int) -> usize {
    if a + b <= usize::MAX {
        (a + b) as usize
    } else {
        usize::MAX
    }
}

/// An entry with its sequence number comes before another: by key, and among
/// equal keys by number.
pub open spec fn entry_lt() -> spec_fn((Vec<u8>, Vec<u8>, u64), (Vec<u8>, Vec<u8>, u64)) -> bool {
    |a: (Vec<u8>, Vec<u8>, u64), b: (Vec<u8>, Vec<u8>, u64)|
        bytes::lex_lt(a.0@, b.0@) || (a.0@ == b.0@ && a.2 < b.2)
}

proof fn lemma_entry_order()
    ensures
        sort::strict_order(entry_lt()),
{
    let lt = entry_lt();
    assert forall|a: (Vec<u8>, Vec<u8>, u64)| !#[trigger] lt(a, a) by {
        bytes::lemma_lex_irreflexive(a.0@);
    }
    assert forall|
        a: (Vec<u8>, Vec<u8>, u64),
        b: (Vec<u8>, Vec<u8>, u64),
        c: (Vec<u8>, Vec<u8>, u64),
    |
        #[trigger] lt(a, b) && #[trigger] lt(b, c) implies lt(a, c) by {
        if bytes::lex_lt(a.0@, b.0@) && bytes::lex_lt(b.0@, c.0@) {
            bytes::lemma_lex_transitive(a.0@, b.0@, c.0@);
        }
    }
    assert forall|
        a: (Vec<u8>, Vec<u8>, u64),
        b: (Vec<u8>, Vec<u8>, u64),
        c: (Vec<u8>, Vec<u8>, u64),
    |
        !#[trigger] lt(a, b) && !#[trigger] lt(b, c) implies !lt(a, c) by {
        bytes::lemma_lex_total(a.0@, b.0@);
        bytes::lemma_lex_total(b.0@, c.0@);
        if lt(a, c) {
            if bytes::lex_lt(a.0@, c.0@) {
                if a.0@ == b.0@ {
                } else if b.0@ == c.0@ {
                } else {
                    bytes::lemma_lex_transitive(c.0@, b.0@, a.0@);
                    bytes::lemma_lex_asymmetric(a.0@, c.0@);
                }
            } else {
                if a.0@ != b.0@ {
                    bytes::lemma_lex_asymmetric(b.0@, a.0@);
                }
            }
        }
    }
}

impl EntryBuffer {
    /// The waiting entries, as they came.
    pub closed spec fn waiting(&self) -> Seq<(Vec<u8>, Vec<u8>, u64)> {
        self.entries@
    }

    /// Their size in bytes, with what each costs besides.
    pub closed spec fn bytes(&self) -> usize {
        self.size
    }

    /// No entry waits.
    pub fn new() -> (r: Self)
        ensures
            r.waiting().len() == 0,
            r.bytes() == 0,
    {
        EntryBuffer { entries: Vec::new(), size: 0 }
    }

    /// Adds an entry and says whether the buffer is now full.
    pub fn push(&mut self, key: Vec<u8>, value: Vec<u8>, seqno: u64, limit: usize) -> (full: bool)
        ensures
            final(self).waiting() == old(self).waiting().push((key, value, seqno)),
            final(self).bytes() == sum_or_max(
                sum_or_max(old(self).bytes() as int, key@.len() as int) as int,
                sum_or_max(value@.len() as int, 20) as int,
            ),
            full == (final(self).bytes() >= limit),
    {
        self.size = self.size.saturating_add(key.len()).saturating_add(
            value.len().saturating_add(20),
        );
        self.entries.push((key, value, seqno));
        self.size >= limit
    }

    /// Whether no entry waits.
    pub fn is_empty(&self) -> (r: bool)
        ensures
            r == (self.waiting().len() == 0),
    {
        self.entries.len() == 0
    }

    /// Takes out all waiting entries in the order of their keys, and those of
    /// one key in the order they came.
    pub fn take_sorted(&mut self) -> (r: Vec<(Vec<u8>, Vec<u8>, u64)>)
        ensures
            final(self).waiting().len() == 0,
            final(self).bytes() == 0,
            r@.to_multiset() == old(self).waiting().to_multiset(),
            sort::sorted(r@, entry_lt()),
    {
        let mut taken: Vec<(Vec<u8>, Vec<u8>, u64)> = Vec::new();
        std::mem::swap(&mut taken, &mut self.entries);
        self.size = 0;
        let f = |a: &(Vec<u8>, Vec<u8>, u64), b: &(Vec<u8>, Vec<u8>, u64)| -> (r: bool)
            ensures
                r == entry_lt()(*a, *b),
            {
                bytes::bytes_less(a.0.as_slice(), b.0.as_slice()) || (bytes::bytes_equal(
                    a.0.as_slice(),
                    b.0.as_slice(),
                ) && a.2 < b.2)
            };
        proof {
            lemma_entry_order();
        }
        sort::merge_sort(taken, &f, Ghost(entry_lt()))
    }
}

/// The specifications have new names.
pub open spec fn all_new(specs: Seq<GhostSpec>, names: Map<Seq<char>, u16>) -> bool {
    forall|i: int| 0 <= i < specs.len() ==> !names.contains_key((#[trigger] specs[i]).name@)
}

/// The first specification whose name is taken.
pub open spec fn first_taken(
    specs: Seq<GhostSpec>,
    names: Map<Seq<char>, u16>,
    i: int,
) -> bool {
    &&& 0 <= i < specs.len()
    &&& names.contains_key(specs[i].name@)
    &&& forall|j: int| 0 <= j < i ==> !names.contains_key((#[trigger] specs[j]).name@)
}

/// The number that comes `i` numbers after another; the numbers wrap around.
pub open spec fn number_after(start: u16, i: int) -> u16 {
    ((start + i) % 0x1_0000) as u16
}

/// Numbers given one after another differ until all have been given once, so
/// ghosts of one batch and of the batches after it do not share a number.
pub proof fn law_numbers_differ(start: u16, i: int, j: int)
    requires
        0 <= i < j,
        j - i < 0x1_0000,
    ensures
        number_after(start, i) != number_after(start, j),
        number_after(number_after(start, i), j - i) == number_after(start, j),
{
}

impl GhostLobeManager {
    /// Begins to build a ghost. A name that is taken is an error.
    pub fn begin_build(&mut self, spec: GhostSpec, limit: usize) -> (r: Result<
        GhostBuild,
        XyzError,
    >)
        requires
            old(self).wf(),
            ast::expr_bound(spec@.filter),
        ensures
            final(self).wf(),
            final(self).listed() == old(self).listed(),
            final(self).names() == old(self).names(),
            final(self).bulk() == old(self).bulk(),
            final(self).hook_cost() == old(self).hook_cost(),
            forall|l: u16| final(self).known(l) == old(self).known(l),
            if old(self).names().contains_key(spec@.name) {
                &&& r matches Err(XyzError::GhostExists(n)) && n@ == spec@.name
                &&& final(self).next() == old(self).next()
            } else {
                &&& final(self).next() == number_after(old(self).next(), 1)
                &&& r matches Ok(b) && b.wf() && b@ == (GhostBuildV {
                    ghost_id: old(self).next(),
                    spec: spec@,
                    index_count: 0,
                    global: aggregate_state::no_records(),
                    groups: Map::empty(),
                    limit,
                    spilled: false,
                })
            },
    {
        if self.contains_ghost(spec.name.as_str()) {
            return Err(XyzError::GhostExists(spec.name));
        }
        let id: u16 = self.alloc_id();
        Ok(GhostBuild::new(id, spec, limit))
    }

    /// Begins to build several ghosts in one scan. The first name that is taken
    /// is an error; the numbers given before it are lost, and no other.
    pub fn begin_batch(&mut self, specs: Vec<GhostSpec>, limit: usize) -> (r: Result<
        Vec<GhostBuild>,
        XyzError,
    >)
        requires
            old(self).wf(),
            forall|i: int|
                0 <= i < specs@.len() ==> ast::expr_bound((#[trigger] specs@[i])@.filter),
        ensures
            final(self).wf(),
            final(self).listed() == old(self).listed(),
            final(self).names() == old(self).names(),
            final(self).bulk() == old(self).bulk(),
            final(self).hook_cost() == old(self).hook_cost(),
            forall|l: u16| final(self).known(l) == old(self).known(l),
            match r {
                Ok(v) => {
                    &&& all_new(specs@, old(self).names())
                    &&& final(self).next() == number_after(old(self).next(), specs@.len() as int)
                    &&& v@.len() == specs@.len()
                    &&& forall|i: int|
                        0 <= i < v@.len() ==> (#[trigger] v@[i]).wf() && v@[i]@ == (GhostBuildV {
                            ghost_id: number_after(old(self).next(), i),
                            spec: specs@[i]@,
                            index_count: 0,
                            global: aggregate_state::no_records(),
                            groups: Map::empty(),
                            limit,
                            spilled: false,
                        })
                },
                Err(e) => e matches XyzError::GhostExists(n) && exists|i: int| #[trigger]
                    first_taken(specs@, old(self).names(), i) && n@ == specs@[i].name@
                        && final(self).next() == number_after(old(self).next(), i),
            },
    {
        let ghost names = self.names();
        let ghost start = self.next();
        let ghost all = specs@;
        let mut builds: Vec<GhostBuild> = Vec::new();
        // The specifications are taken from the front.
        let mut rest = sort::reversed(specs);
        while rest.len() > 0
            invariant
                self.wf(),
                self.names() == names,
                self.listed() == old(self).listed(),
                self.bulk() == old(self).bulk(),
                self.hook_cost() == old(self).hook_cost(),
                forall|l: u16| self.known(l) == old(self).known(l),
                names == old(self).names(),
                start == old(self).next(),
                all == specs@,
                rest@.len() + builds@.len() == all.len(),
                self.next() == number_after(start, builds@.len() as int),
                forall|i: int|
                    0 <= i < rest@.len() ==> #[trigger] rest@[i] == all[all.len() - 1 - i],
                forall|i: int|
                    0 <= i < all.len() ==> ast::expr_bound((#[trigger] all[i])@.filter),
                forall|i: int|
                    0 <= i < builds@.len() ==> (#[trigger] builds@[i]).wf() && builds@[i]@ == (
                    GhostBuildV {
                        ghost_id: number_after(start, i),
                        spec: all[i]@,
                        index_count: 0,
                        global: aggregate_state::no_records(),
                        groups: Map::empty(),
                        limit,
                        spilled: false,
                    }),
                forall|i: int|
                    0 <= i < builds@.len() ==> !names.contains_key((#[trigger] all[i]).name@),
            decreases rest@.len(),
        {
            let ghost k = builds@.len() as int;
            let ghost before = builds@;
            match rest.pop() {
                Some(spec) => {
                    assert(spec == all[k]);
                    match self.begin_build(spec, limit) {
                        Ok(b) => {
                            builds.push(b);
                            assert forall|i: int| 0 <= i < builds@.len() implies (
                            #[trigger] builds@[i]).wf() && builds@[i]@ == (GhostBuildV {
                                ghost_id: number_after(start, i),
                                spec: all[i]@,
                                index_count: 0,
                                global: aggregate_state::no_records(),
                                groups: Map::empty(),
                                limit,
                                spilled: false,
                            }) by {
                                if i < k {
                                    assert(builds@[i] == before[i]);
                                }
                            }
                        },
                        Err(e) => {
                            assert(first_taken(all, names, k));
                            return Err(e);
                        },
                    }
                },
                None => {},
            }
        }
        Ok(builds)
    }
}

impl<
    K: Fn(&Fields, &[String]) -> String,
    T: Fn(u16, Option<&Value>, bool, &[u8]) -> Vec<u8>,
    P: Fn(&Value) -> Option<Vec<u8>>,
    U: Fn(&[u8]) -> Option<Value>,
    A: Fn(&AggregateState, &Record, &Vec<Metric>) -> AggregateState,
    S: Fn(&AggregateState, &Record, &Vec<Metric>) -> AggregateState,
> GhostOps<K, T, P, U, A, S> {
    /// Building a ghost counts every member once, takes it into the aggregate over all and
    /// into that of its group, and touches no other group. Where the groups become too
    /// many they are all moved out of memory, and the ghost remembers it.
    pub proof fn law_build_takes_members_in(&self, b: GhostBuildV, r: RecordV, k: Seq<char>)
        requires
            b.index_count < u64::MAX,
        ensures
            ({
                let f = self.fed(b, r);
                let gk = self.group_key_of(r.fields, b.spec.group_fields);
                let grouped = b.spec.aggregate_specs.len() > 0 && b.spec.group_fields.len() > 0;
                &&& f.index_count == b.index_count + 1
                &&& f.spec == b.spec && f.ghost_id == b.ghost_id
                &&& b.spec.aggregate_specs.len() > 0 ==> f.global == self.added(
                    b.global,
                    r,
                    b.spec.aggregate_specs,
                )
                &&& b.spec.aggregate_specs.len() == 0 ==> f.global == b.global
                &&& !grouped ==> f.groups == b.groups && f.spilled == b.spilled
                &&& f.groups.dom().len() > 0 && grouped ==> f.groups.contains_key(gk)
                    && f.groups[gk] == self.added(
                    if b.groups.contains_key(gk) {
                        b.groups[gk]
                    } else {
                        aggregate_state::no_records()
                    },
                    r,
                    b.spec.aggregate_specs,
                ) && f.spilled == b.spilled
                &&& grouped && f.groups.contains_key(k) && k != gk ==> b.groups.contains_key(k)
                    && f.groups[k] == b.groups[k]
                &&& b.spilled ==> f.spilled
            }),
    {
    }
}

/// A ghost that is built is as it was specified, has as many entries as it took in, and
/// is ready, new and not behind.
pub proof fn law_built_ghost_is_as_specified(
    b: GhostBuildV,
    lobe_id: u16,
    source: Seq<char>,
    now: i64,
    emitted: bool,
)
    ensures
        ({
            let g = built_meta(b, lobe_id, source, now, emitted);
            &&& g.name == b.spec.name && g.ghost_id == b.ghost_id
            &&& g.lobe_id == lobe_id && g.source_lobe == source
            &&& g.filter == b.spec.filter && g.projection == b.spec.projection
            &&& g.order_by_field == b.spec.order_by_field && g.sort_inverted
                == b.spec.sort_inverted && g.metric_order == b.spec.metric_order
            &&& g.index_count == b.index_count
            &&& g.state == 1 && !g.maintenance_degraded
            &&& g.created_at == now && g.last_accessed == now
            &&& g.order_emitted_at == Some(now) <==> emitted && b.spec.metric_order is Some
            &&& g.lifecycle is Auto <==> b.spec.is_auto
            &&& g.aggregate is Some <==> b.spec.aggregate_specs.len() > 0
        }),
{
}

/// Entries are written by key, and of one key in the order in which they came.
pub proof fn law_entries_are_written_by_key(a: (Vec<u8>, Vec<u8>, u64), b: (Vec<u8>, Vec<u8>, u64))
    ensures
        bytes::lex_lt(a.0@, b.0@) ==> entry_lt()(a, b) && !entry_lt()(b, a),
        a.0@ == b.0@ ==> (entry_lt()(a, b) <==> a.2 < b.2),
{
    if bytes::lex_lt(a.0@, b.0@) {
        bytes::lemma_lex_asymmetric(a.0@, b.0@);
    }
    bytes::lemma_lex_irreflexive(a.0@);
}

} // verus!
