//! How ghosts are written to the dictionary and read back.

use crate::aggregate_state;
use crate::aggregate_state::{AggregateState, AggregateStateV, Metric, MetricV, Summaries};
use crate::ast;
use crate::ast::{FilterExpr, FilterExprV};
use crate::bytes;
use crate::ghost_meta;
use crate::ghost_meta::{
    AccessTelemetry, AggregateContent, AggregateContentV, GhostMeta, GhostMetaV, GhostType,
    Grouping, MetricOrder, MetricOrderV, Residency, ResidencyV,
};
use crate::ghost_store;
use crate::ghost_store::GhostLobeManager;
use crate::gravity_spec;
use crate::sorted_map::SortedMap;
use crate::text;
use vstd::prelude::*;

verus! {

/// The format of the ghosts in the dictionary. Bytes of another format are
/// not read.
pub const GHOST_META_FORMAT: u8 = 0x09;

/// A ghost as it is written to the dictionary: without nested parts, so that
/// the layout does not change with them.
pub struct PersistedGhostMeta {
    pub name: String,
    pub ghost_id: u16,
    pub version: u8,
    pub lobe_id: u16,
    pub source_lobe: String,
    pub is_auto: bool,
    pub filter: FilterExpr,
    pub order_by_field: String,
    pub sort_inverted: bool,
    pub metric_order: Option<MetricOrder>,
    pub order_emitted_at: Option<i64>,
    pub state: u8,
    pub index_count: u64,
    /// None for a ghost that computes no aggregate.
    pub aggregate_specs: Vec<Metric>,
    pub global_aggregates: AggregateState,
    pub group_fields: Vec<String>,
    pub group_summaries: Summaries,
    /// Whether the groups are in the rollups.
    pub spilled: bool,
    pub projection: Vec<String>,
    pub created_at: i64,
    pub last_accessed: i64,
    pub incremental_updates: u64,
    pub ghost_type: GhostType,
    pub ttl_seconds: Option<u64>,
    pub daily_access_bitmap: u32,
    pub access_count_total: u64,
}

/// What a [`PersistedGhostMeta`] stands for.
pub struct PersistedGhostMetaV {
    pub name: Seq<char>,
    pub ghost_id: u16,
    pub version: u8,
    pub lobe_id: u16,
    pub source_lobe: Seq<char>,
    pub is_auto: bool,
    pub filter: FilterExprV,
    pub order_by_field: Seq<char>,
    pub sort_inverted: bool,
    pub metric_order: Option<MetricOrderV>,
    pub order_emitted_at: Option<i64>,
    pub state: u8,
    pub index_count: u64,
    pub aggregate_specs: Seq<MetricV>,
    pub global_aggregates: AggregateStateV,
    pub group_fields: Seq<Seq<char>>,
    pub group_summaries: Map<Seq<char>, AggregateStateV>,
    pub spilled: bool,
    pub projection: Seq<Seq<char>>,
    pub created_at: i64,
    pub last_accessed: i64,
    pub incremental_updates: u64,
    pub ghost_type: GhostType,
    pub ttl_seconds: Option<u64>,
    pub daily_access_bitmap: u32,
    pub access_count_total: u64,
}

impl View for PersistedGhostMeta {
    type V = PersistedGhostMetaV;

    open spec fn view(&self) -> PersistedGhostMetaV {
        PersistedGhostMetaV {
            name: self.name@,
            ghost_id: self.ghost_id,
            version: self.version,
            lobe_id: self.lobe_id,
            source_lobe: self.source_lobe@,
            is_auto: self.is_auto,
            filter: ast::expr_view(self.filter),
            order_by_field: self.order_by_field@,
            sort_inverted: self.sort_inverted,
            metric_order: ghost_meta::opt_order(self.metric_order),
            order_emitted_at: self.order_emitted_at,
            state: self.state,
            index_count: self.index_count,
            aggregate_specs: aggregate_state::metrics_view(self.aggregate_specs@),
            global_aggregates: self.global_aggregates@,
            group_fields: text::names(self.group_fields@),
            group_summaries: aggregate_state::summaries_view(self.group_summaries@),
            spilled: self.spilled,
            projection: text::names(self.projection@),
            created_at: self.created_at,
            last_accessed: self.last_accessed,
            incremental_updates: self.incremental_updates,
            ghost_type: self.ghost_type,
            ttl_seconds: self.ttl_seconds,
            daily_access_bitmap: self.daily_access_bitmap,
            access_count_total: self.access_count_total,
        }
    }
}

/// What is written of a ghost.
pub open spec fn flattened(g: GhostMetaV) -> PersistedGhostMetaV {
    let t = match ghost_meta::telemetry_of(g.lifecycle) {
        Some(t) => t,
        None => ghost_meta::no_access(),
    };
    PersistedGhostMetaV {
        name: g.name,
        ghost_id: g.ghost_id,
        version: g.version,
        lobe_id: g.lobe_id,
        source_lobe: g.source_lobe,
        is_auto: g.lifecycle is Auto,
        filter: g.filter,
        order_by_field: g.order_by_field,
        sort_inverted: g.sort_inverted,
        metric_order: g.metric_order,
        order_emitted_at: g.order_emitted_at,
        state: g.state,
        index_count: g.index_count,
        aggregate_specs: match g.aggregate {
            Some(a) => a.specs,
            None => Seq::empty(),
        },
        global_aggregates: match g.aggregate {
            Some(a) => a.global,
            None => aggregate_state::no_records(),
        },
        group_fields: g.group_fields(),
        group_summaries: match g.aggregate {
            Some(a) => match a.residency {
                ResidencyV::InRam(m) => m,
                ResidencyV::Spilled => Map::empty(),
            },
            None => Map::empty(),
        },
        spilled: g.aggregate matches Some(a) && a.residency is Spilled,
        projection: g.projection,
        created_at: g.created_at,
        last_accessed: g.last_accessed,
        incremental_updates: g.incremental_updates,
        ghost_type: ghost_meta::type_of(g.lifecycle),
        ttl_seconds: ghost_meta::ttl_of(g.lifecycle),
        daily_access_bitmap: t.daily_access_bitmap,
        access_count_total: t.access_count_total,
    }
}

/// The ghost that was written, as it is at `now`: used just now, and with no
/// access counted yet.
pub open spec fn restored(p: PersistedGhostMetaV, now: i64) -> GhostMetaV {
    GhostMetaV {
        name: p.name,
        ghost_id: p.ghost_id,
        version: p.version,
        lobe_id: p.lobe_id,
        source_lobe: p.source_lobe,
        filter: p.filter,
        order_by_field: p.order_by_field,
        sort_inverted: p.sort_inverted,
        metric_order: p.metric_order,
        order_emitted_at: p.order_emitted_at,
        state: p.state,
        index_count: p.index_count,
        aggregate: if p.aggregate_specs.len() == 0 {
            None
        } else {
            Some(
                AggregateContentV {
                    specs: p.aggregate_specs,
                    global: p.global_aggregates,
                    group_fields: p.group_fields,
                    residency: if p.spilled {
                        ResidencyV::Spilled
                    } else {
                        ResidencyV::InRam(p.group_summaries)
                    },
                },
            )
        },
        projection: p.projection,
        created_at: p.created_at,
        last_accessed: now,
        incremental_updates: p.incremental_updates,
        lifecycle: ghost_meta::lifecycle_of(
            p.ghost_type,
            p.ttl_seconds,
            ghost_meta::no_access(),
        ),
        maintenance_degraded: false,
    }
}

/// A ghost that was written and read back is the one that it was, but for its
/// use: the last use is now, no access is counted, and no failure of keeping
/// it is known. It has metrics wherever it computes an aggregate.
pub proof fn law_restored_is_written(g: GhostMetaV, now: i64)
    requires
        g.aggregate matches Some(a) ==> a.specs.len() > 0,
    ensures
        restored(flattened(g), now) == (GhostMetaV {
            last_accessed: now,
            lifecycle: ghost_meta::lifecycle_of(
                ghost_meta::type_of(g.lifecycle),
                ghost_meta::ttl_of(g.lifecycle),
                ghost_meta::no_access(),
            ),
            maintenance_degraded: false,
            ..g
        }),
{
}

/// What is written of a ghost.
pub fn flatten(meta: &GhostMeta) -> (r: PersistedGhostMeta)
    requires
        meta.wf(),
    ensures
        r@ == flattened(meta@),
{
    let (specs, global, summaries, spilled) = match &meta.aggregate {
        Some(a) => {
            let (m, s) = match &a.residency {
                Residency::InRam(m) => (aggregate_state::clone_summaries(m), false),
                Residency::Spilled => {
                    let m: Summaries = SortedMap::new();
                    assert(aggregate_state::summaries_view(m@) =~= Map::<
                        Seq<char>,
                        AggregateStateV,
                    >::empty());
                    (m, true)
                },
            };
            (
                aggregate_state::clone_metrics(&a.aggregate_specs),
                a.global_aggregates.clone_state(),
                m,
                s,
            )
        },
        None => {
            let m: Summaries = SortedMap::new();
            assert(aggregate_state::summaries_view(m@) =~= Map::<
                Seq<char>,
                AggregateStateV,
            >::empty());
            let v: Vec<Metric> = Vec::new();
            assert(aggregate_state::metrics_view(v@) =~= Seq::<MetricV>::empty());
            (v, AggregateState::default(), m, false)
        },
    };
    let (bitmap, count): (u32, u64) = match meta.telemetry() {
        Some(t) => (t.daily_access_bitmap, t.access_count_total),
        None => (0, 0),
    };
    PersistedGhostMeta {
        name: meta.name.clone(),
        ghost_id: meta.ghost_id,
        version: meta.version,
        lobe_id: meta.lobe_id,
        source_lobe: meta.source_lobe.clone(),
        is_auto: meta.is_auto(),
        filter: meta.filter.clone_expr(),
        order_by_field: meta.order_by_field.clone(),
        sort_inverted: meta.sort_inverted,
        metric_order: ghost_meta::clone_order(&meta.metric_order),
        order_emitted_at: meta.order_emitted_at,
        state: meta.state,
        index_count: meta.index_count,
        aggregate_specs: specs,
        global_aggregates: global,
        group_fields: text::clone_names(meta.group_fields()),
        group_summaries: summaries,
        spilled,
        projection: text::clone_names(meta.projection.as_slice()),
        created_at: meta.created_at,
        last_accessed: meta.last_accessed,
        incremental_updates: meta.incremental_updates,
        ghost_type: meta.ghost_type(),
        ttl_seconds: meta.ttl_seconds(),
        daily_access_bitmap: bitmap,
        access_count_total: count,
    }
}

/// The ghost that was written, as it is at `now`.
pub fn restore(p: PersistedGhostMeta, now: i64) -> (r: GhostMeta)
    ensures
        r.wf(),
        r@ == restored(p@, now),
{
    let aggregate = if p.aggregate_specs.len() == 0 {
        None
    } else {
        Some(
            AggregateContent {
                aggregate_specs: p.aggregate_specs,
                global_aggregates: p.global_aggregates,
                grouping: Grouping::from_fields(p.group_fields),
                residency: if p.spilled {
                    Residency::Spilled
                } else {
                    Residency::InRam(p.group_summaries)
                },
            },
        )
    };
    GhostMeta {
        name: p.name,
        ghost_id: p.ghost_id,
        version: p.version,
        lobe_id: p.lobe_id,
        source_lobe: p.source_lobe,
        filter: p.filter,
        order_by_field: p.order_by_field,
        sort_inverted: p.sort_inverted,
        metric_order: p.metric_order,
        order_emitted_at: p.order_emitted_at,
        state: p.state,
        index_count: p.index_count,
        aggregate,
        projection: p.projection,
        created_at: p.created_at,
        last_accessed: now,
        incremental_updates: p.incremental_updates,
        lifecycle: ghost_meta::make_lifecycle(
            p.ghost_type,
            p.ttl_seconds,
            AccessTelemetry { daily_access_bitmap: 0, access_count_total: 0 },
        ),
        core_filters_cache: None,
        maintenance_degraded: false,
    }
}

/// What the bytes of a ghost are.
#[derive(Debug, PartialEq, Eq)]
pub enum MetaBytes {
    /// The payload of the current format.
    Payload(Vec<u8>),
    /// Bytes of another format, or of none.
    UnknownFormat { found: u8 },
}

/// What the bytes of a ghost are.
pub open spec fn is_meta_bytes(magic: [u8; 2], b: Seq<u8>, r: MetaBytes) -> bool {
    if gravity_spec::has_envelope(magic, b) && b[2] == GHOST_META_FORMAT {
        r matches MetaBytes::Payload(p) && p@ == b.skip(3)
    } else {
        r == MetaBytes::UnknownFormat {
            found: if b.len() >= 3 {
                b[2]
            } else {
                0
            },
        }
    }
}

/// The bytes of a ghost in the dictionary.
pub fn frame_ghost_meta(magic: [u8; 2], payload: &[u8]) -> (r: Vec<u8>)
    ensures
        r@ == gravity_spec::enveloped(magic, GHOST_META_FORMAT, payload@),
{
    gravity_spec::envelope(magic, GHOST_META_FORMAT, payload)
}

/// Tells the payload of a ghost from bytes of another format.
pub fn decode_persisted_ghost_meta(magic: [u8; 2], val: &[u8]) -> (r: MetaBytes)
    ensures
        is_meta_bytes(magic, val@, r),
{
    if !gravity_spec::is_enveloped(magic, val) {
        return MetaBytes::UnknownFormat {
            found: if val.len() >= 3 {
                val[2]
            } else {
                0
            },
        };
    }
    if val[2] != GHOST_META_FORMAT {
        return MetaBytes::UnknownFormat { found: val[2] };
    }
    let p = bytes::sub_bytes(val, 3, val.len());
    assert(p@ =~= val@.skip(3));
    MetaBytes::Payload(p)
}

/// A framed payload is read back as it is.
pub proof fn law_framed_payload_is_read(magic: [u8; 2], payload: Seq<u8>, r: MetaBytes)
    requires
        is_meta_bytes(magic, gravity_spec::enveloped(magic, GHOST_META_FORMAT, payload), r),
    ensures
        r matches MetaBytes::Payload(p) && p@ == payload,
{
    let b = gravity_spec::enveloped(magic, GHOST_META_FORMAT, payload);
    assert(b.skip(3) =~= payload);
}

/// The ghosts, the index of their names and the next number.
pub struct LoadedV {
    pub stored: Map<(u16, Seq<char>), GhostMetaV>,
    pub names: Map<Seq<char>, u16>,
    pub next: u16,
}

/// Whether a written ghost is dropped when it is loaded: its time to live is
/// over, and its data could be removed.
pub open spec fn dropped_at_load(p: PersistedGhostMetaV, purged: bool, now: i64) -> bool {
    ghost_store::ttl_elapsed(now, p.last_accessed, p.ttl_seconds) && purged
}

/// A number that no ghost up to this one has.
pub open spec fn past(next: u16, id: u16) -> u16 {
    if next <= id {
        if id < u16::MAX {
            (id + 1) as u16
        } else {
            id
        }
    } else {
        next
    }
}

/// What loading the ghosts leads to.
pub open spec fn after_load(
    before: LoadedV,
    entries: Seq<(PersistedGhostMetaV, bool)>,
    now: i64,
) -> LoadedV
    decreases entries.len(),
{
    if entries.len() == 0 {
        before
    } else {
        let b = after_load(before, entries.drop_last(), now);
        let (p, purged) = entries.last();
        let next = past(b.next, p.ghost_id);
        if dropped_at_load(p, purged, now) {
            LoadedV { next, ..b }
        } else {
            LoadedV {
                stored: b.stored.insert((p.lobe_id, p.name), restored(p, now)),
                names: b.names.insert(p.name, p.lobe_id),
                next,
            }
        }
    }
}

/// What is reported of the loaded ghosts: lobe, name and number of entries.
pub open spec fn load_report(entries: Seq<(PersistedGhostMetaV, bool)>, now: i64) -> Seq<
    (u16, Seq<char>, u64),
>
    decreases entries.len(),
{
    if entries.len() == 0 {
        Seq::empty()
    } else {
        let r = load_report(entries.drop_last(), now);
        let (p, purged) = entries.last();
        if dropped_at_load(p, purged, now) {
            r
        } else {
            r.push((p.lobe_id, p.name, p.index_count))
        }
    }
}

/// A ghost of the lobe is among those reported.
pub open spec fn reports_lobe(report: Seq<(u16, Seq<char>, u64)>, lobe: u16) -> bool {
    exists|i: int| 0 <= i < report.len() && (#[trigger] report[i]).0 == lobe
}

proof fn lemma_reports_one_more(
    report: Seq<(u16, Seq<char>, u64)>,
    x: (u16, Seq<char>, u64),
    lobe: u16,
)
    ensures
        reports_lobe(report.push(x), lobe) == (reports_lobe(report, lobe) || x.0 == lobe),
{
    let r = report.push(x);
    if reports_lobe(report, lobe) {
        let i = choose|i: int| 0 <= i < report.len() && (#[trigger] report[i]).0 == lobe;
        assert(r[i].0 == lobe);
    }
    if x.0 == lobe {
        assert(r[r.len() - 1].0 == lobe);
    }
    if reports_lobe(r, lobe) {
        let i = choose|i: int| 0 <= i < r.len() && (#[trigger] r[i]).0 == lobe;
        if i < report.len() {
            assert(report[i].0 == lobe);
        }
    }
}

/// After the written ghosts are loaded, the next ghost gets a number above theirs,
/// so it takes the place of none of them, unless a number is the last that there is.
pub proof fn law_next_is_past_loaded(
    before: LoadedV,
    entries: Seq<(PersistedGhostMetaV, bool)>,
    now: i64,
)
    ensures
        after_load(before, entries, now).next >= before.next,
        forall|i: int|
            0 <= i < entries.len() && (#[trigger] entries[i]).0.ghost_id < u16::MAX
                ==> after_load(before, entries, now).next > entries[i].0.ghost_id,
    decreases entries.len(),
{
    if entries.len() > 0 {
        let d = entries.drop_last();
        law_next_is_past_loaded(before, d, now);
        assert forall|i: int|
            0 <= i < entries.len() && (#[trigger] entries[i]).0.ghost_id < u16::MAX implies
            after_load(before, entries, now).next > entries[i].0.ghost_id by {
            if i < d.len() {
                assert(d[i] == entries[i]);
            }
        }
    }
}

/// What reports say.
pub open spec fn reports_view(s: Seq<(u16, String, u64)>) -> Seq<(u16, Seq<char>, u64)> {
    s.map_values(|t: (u16, String, u64)| (t.0, t.1@, t.2))
}

/// What written ghosts stand for.
pub open spec fn written_view(s: Seq<(PersistedGhostMeta, bool)>) -> Seq<
    (PersistedGhostMetaV, bool),
> {
    s.map_values(|t: (PersistedGhostMeta, bool)| (t.0@, t.1))
}

impl GhostLobeManager {
    /// The ghosts, the index of their names and the next number.
    pub open spec fn loaded(&self) -> LoadedV {
        LoadedV { stored: self.stored(), names: self.names(), next: self.next() }
    }

    /// Loads the written ghosts at `now`; with each comes whether its data was
    /// removed, which is tried where its time to live is over. A ghost whose
    /// data could not be removed is loaded, so that dropping it can be tried
    /// again. Reports lobe, name and number of entries of each loaded ghost.
    pub fn load_all(&mut self, entries: Vec<(PersistedGhostMeta, bool)>, now: i64) -> (r: Vec<
        (u16, String, u64),
    >)
        requires
            old(self).wf(),
        ensures
            final(self).wf(),
            final(self).loaded() == after_load(old(self).loaded(), written_view(entries@), now),
            reports_view(r@) == load_report(written_view(entries@), now),
            final(self).bulk() == old(self).bulk(),
            final(self).hook_cost() == old(self).hook_cost(),
            forall|l: u16|
                final(self).known(l) == (old(self).known(l) || reports_lobe(
                    load_report(written_view(entries@), now),
                    l,
                )),
    {
        let ghost start = self.loaded();
        let ghost ev = written_view(entries@);
        let mut out: Vec<(u16, String, u64)> = Vec::new();
        let mut rest = entries;
        let ghost n = rest@.len();
        let mut todo: Vec<(PersistedGhostMeta, bool)> = Vec::new();
        while rest.len() > 0
            invariant
                n == ev.len(),
                todo@.len() + rest@.len() == n,
                forall|j: int|
                    0 <= j < rest@.len() ==> ((#[trigger] rest@[j]).0@, rest@[j].1) == ev[j],
                forall|j: int|
                    0 <= j < todo@.len() ==> ((#[trigger] todo@[j]).0@, todo@[j].1) == ev[n - 1
                        - j],
            decreases rest@.len(),
        {
            if let Some(x) = rest.pop() {
                todo.push(x);
            }
        }
        assert(ev.take(0) =~= Seq::<(PersistedGhostMetaV, bool)>::empty());
        assert(reports_view(out@) =~= Seq::<(u16, Seq<char>, u64)>::empty());
        let ghost mut i: int = 0;
        while todo.len() > 0
            invariant
                n == ev.len(),
                0 <= i,
                i + todo@.len() == n,
                forall|j: int|
                    0 <= j < todo@.len() ==> ((#[trigger] todo@[j]).0@, todo@[j].1) == ev[n - 1
                        - j],
                self.wf(),
                self.loaded() == after_load(start, ev.take(i), now),
                reports_view(out@) == load_report(ev.take(i), now),
                self.bulk() == old(self).bulk(),
                self.hook_cost() == old(self).hook_cost(),
                forall|l: u16|
                    self.known(l) == (old(self).known(l) || reports_lobe(
                        load_report(ev.take(i), now),
                        l,
                    )),
            decreases todo@.len(),
        {
            let ghost was = todo@;
            if let Some((p, purged)) = todo.pop() {
                let ghost pv = p@;
                proof {
                    assert((was[was.len() - 1].0@, was[was.len() - 1].1) == ev[i]);
                    assert(ev.take(i + 1).drop_last() =~= ev.take(i));
                    assert(ev.take(i + 1).last() == ev[i]);
                }
                let ghost so_far = out@;
                let id: u16 = p.ghost_id;
                self.raise_next_id(
                    if id < u16::MAX {
                        id + 1
                    } else {
                        id
                    },
                );
                if !(ghost_store::is_ttl_elapsed(now, p.last_accessed, p.ttl_seconds) && purged) {
                    out.push((p.lobe_id, p.name.clone(), p.index_count));
                    assert(reports_view(out@) =~= reports_view(so_far).push(
                        (pv.lobe_id, pv.name, pv.index_count),
                    ));
                    let meta = restore(p, now);
                    proof {
                        assert forall|l: u16| #[trigger]
                            reports_lobe(load_report(ev.take(i + 1), now), l) == (reports_lobe(
                                load_report(ev.take(i), now),
                                l,
                            ) || l == pv.lobe_id) by {
                            lemma_reports_one_more(
                                load_report(ev.take(i), now),
                                (pv.lobe_id, pv.name, pv.index_count),
                                l,
                            );
                        }
                    }
                    self.insert_ghost(meta);
                }
                proof {
                    i = i + 1;
                }
            }
        }
        assert(ev.take(i) =~= ev);
        out
    }
}

/// A written ghost that is loaded is there under its lobe and name as it was written, used
/// just now, unless its time to live is over and its data was removed; then it is not. A
/// later ghost of the same name takes its place.
pub proof fn law_loaded_ghost_is_there(
    before: LoadedV,
    entries: Seq<(PersistedGhostMetaV, bool)>,
    now: i64,
    p: PersistedGhostMetaV,
    purged: bool,
)
    ensures
        ({
            let b = after_load(before, entries, now);
            let a = after_load(before, entries.push((p, purged)), now);
            let over = purged && ghost_store::ttl_elapsed(now, p.last_accessed, p.ttl_seconds);
            &&& over ==> a.stored == b.stored && a.names == b.names
            &&& !over ==> a.stored.contains_key((p.lobe_id, p.name)) && a.names.contains_key(p.name)
                && a.names[p.name] == p.lobe_id
            &&& !over ==> {
                let g = a.stored[(p.lobe_id, p.name)];
                &&& g.name == p.name && g.ghost_id == p.ghost_id && g.lobe_id == p.lobe_id
                &&& g.filter == p.filter && g.index_count == p.index_count && g.projection
                    == p.projection && g.order_by_field == p.order_by_field && g.sort_inverted
                    == p.sort_inverted
                &&& g.last_accessed == now && g.created_at == p.created_at
            }
            &&& load_report(entries.push((p, purged)), now) == if over {
                load_report(entries, now)
            } else {
                load_report(entries, now).push((p.lobe_id, p.name, p.index_count))
            }
        }),
        after_load(before, Seq::empty(), now) == before,
{
    assert(entries.push((p, purged)).drop_last() =~= entries);
}

} // verus!
