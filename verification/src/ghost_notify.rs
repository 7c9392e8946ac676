//! Keeping a ghost up to date with the writes to its lobe.
//!
//! A write changes a ghost in three steps: the entries to be written, in the
//! order given; then, with what came of them, the ghost's counts and states
//! and the rollups to be written; then what came of those.

use crate::aggregate_state;
use crate::aggregate_state::{AggregateState, AggregateStateV, Metric, MetricV, Summaries};
use crate::bytes;
use crate::ghost_keys;
use crate::ghost_meta;
use crate::ghost_meta::{
    AggregateContentV, GhostMeta, GhostMetaV, Residency, ResidencyV, WriteType, STATE_PAUSED,
};
use crate::ghost_ops::GhostOps;
use crate::ghost_spill;
use crate::ghost_spill::{RollupSpiller, RollupWrite};
use crate::record::{Fields, Record, RecordV};
use crate::value::Value;
use vstd::prelude::*;

verus! {

/// What a write does to the membership of a record.
#[derive(Clone, Copy, Debug, PartialEq, Eq, Structural)]
pub enum Change {
    /// It was no member and is none.
    Unaffected,
    /// It becomes a member.
    Enter,
    /// It is no longer a member.
    Leave,
    /// It stays a member.
    Stay,
}

/// What a write does to the membership of a record, from whether the record
/// matches before and after it.
pub open spec fn change_of(w: WriteType, old_matches: bool, new_matches: bool) -> Change {
    match w {
        WriteType::Insert => if new_matches {
            Change::Enter
        } else {
            Change::Unaffected
        },
        WriteType::Delete => if old_matches {
            Change::Leave
        } else {
            Change::Unaffected
        },
        WriteType::Update { .. } => if old_matches && new_matches {
            Change::Stay
        } else if old_matches {
            Change::Leave
        } else if new_matches {
            Change::Enter
        } else {
            Change::Unaffected
        },
    }
}

/// What a write does to the membership of a record, from whether the record
/// matches before and after it.
pub fn membership_change(w: &WriteType, old_matches: bool, new_matches: bool) -> (r: Change)
    ensures
        r == change_of(*w, old_matches, new_matches),
{
    match w {
        WriteType::Insert => if new_matches {
            Change::Enter
        } else {
            Change::Unaffected
        },
        WriteType::Delete => if old_matches {
            Change::Leave
        } else {
            Change::Unaffected
        },
        WriteType::Update { .. } => if old_matches && new_matches {
            Change::Stay
        } else if old_matches {
            Change::Leave
        } else if new_matches {
            Change::Enter
        } else {
            Change::Unaffected
        },
    }
}

/// An entry to be written or removed.
pub enum EntryOp {
    Insert { key: Vec<u8>, value: Vec<u8> },
    Remove { key: Vec<u8> },
}

/// What an [`EntryOp`] says.
pub enum EntryOpV {
    Insert { key: Seq<u8>, value: Seq<u8> },
    Remove { key: Seq<u8> },
}

impl View for EntryOp {
    type V = EntryOpV;

    open spec fn view(&self) -> EntryOpV {
        match self {
            EntryOp::Insert { key, value } => EntryOpV::Insert { key: key@, value: value@ },
            EntryOp::Remove { key } => EntryOpV::Remove { key: key@ },
        }
    }
}

/// What operations on entries say.
pub open spec fn entry_ops_view(s: Seq<EntryOp>) -> Seq<EntryOpV> {
    s.map_values(|o: EntryOp| o@)
}

/// How a record counts in a delta.
#[derive(Clone, Copy, Debug, PartialEq, Eq, Structural)]
pub enum Delta {
    /// The new record, once more.
    Plus,
    /// The old record, once less.
    Minus,
    /// The new record once more and the old one once less, in one delta.
    Both,
}

/// What is to be appended to rollups.
pub enum RollupOps {
    /// A delta for each group.
    Append(Vec<(Vec<u8>, Delta)>),
    /// The states of all groups, which then leave memory.
    Spill(Vec<RollupWrite>),
}

/// What deltas say.
pub open spec fn deltas_view(s: Seq<(Vec<u8>, Delta)>) -> Seq<(Seq<u8>, Delta)> {
    s.map_values(|p: (Vec<u8>, Delta)| (p.0@, p.1))
}

impl<
    K: Fn(&Fields, &[String]) -> String,
    T: Fn(u16, Option<&Value>, bool, &[u8]) -> Vec<u8>,
    P: Fn(&Value) -> Option<Vec<u8>>,
    U: Fn(&[u8]) -> Option<Value>,
    A: Fn(&AggregateState, &Record, &Vec<Metric>) -> AggregateState,
    S: Fn(&AggregateState, &Record, &Vec<Metric>) -> AggregateState,
> GhostOps<K, T, P, U, A, S> {
    /// The key of a record's entry in the ghost.
    pub open spec fn meta_entry_key(
        &self,
        g: GhostMetaV,
        r: RecordV,
        spatial_key: Seq<u8>,
    ) -> Seq<u8> {
        self.entry_key(
            g.ghost_id,
            g.order_by_field,
            g.sort_inverted,
            g.group_fields(),
            r.fields,
            spatial_key,
        )
    }

    /// The operations on a ghost's entries that a change asks for, in order. A
    /// record that stays is written under its new key before the entry under
    /// an old key is removed.
    pub open spec fn entry_ops_of(
        &self,
        g: GhostMetaV,
        change: Change,
        old_record: RecordV,
        new_record: RecordV,
        old_key: Seq<u8>,
        new_key: Seq<u8>,
    ) -> Seq<EntryOpV> {
        let put = EntryOpV::Insert {
            key: self.meta_entry_key(g, new_record, new_key),
            value: self.entry_value(new_key, new_record.fields, g.projection),
        };
        let take = EntryOpV::Remove { key: self.meta_entry_key(g, old_record, old_key) };
        match change {
            Change::Unaffected => Seq::empty(),
            Change::Enter => seq![put],
            Change::Leave => seq![take],
            Change::Stay => if self.meta_entry_key(g, new_record, new_key) != self.meta_entry_key(
                g,
                old_record,
                old_key,
            ) {
                seq![put, take]
            } else {
                seq![put]
            },
        }
    }

    fn entry_key_for(&self, meta: &GhostMeta, record: &Record, spatial_key: &[u8]) -> (r: Vec<u8>)
        requires
            self.sound(),
        ensures
            r@ == self.meta_entry_key(meta@, record@, spatial_key@),
    {
        self.make_entry_key(
            meta.ghost_id,
            meta.order_by_field.as_str(),
            meta.sort_inverted,
            meta.group_fields(),
            record,
            spatial_key,
        )
    }

    /// The operations on a ghost's entries that a change asks for, in order.
    pub fn entry_ops(
        &self,
        meta: &GhostMeta,
        change: Change,
        old_record: &Record,
        new_record: &Record,
        old_key: &[u8],
        new_key: &[u8],
    ) -> (r: Vec<EntryOp>)
        requires
            self.sound(),
        ensures
            entry_ops_view(r@) == self.entry_ops_of(
                meta@,
                change,
                old_record@,
                new_record@,
                old_key@,
                new_key@,
            ),
    {
        let ghost want = self.entry_ops_of(
            meta@,
            change,
            old_record@,
            new_record@,
            old_key@,
            new_key@,
        );
        let mut ops: Vec<EntryOp> = Vec::new();
        match change {
            Change::Unaffected => {},
            Change::Enter => {
                let key = self.entry_key_for(meta, new_record, new_key);
                let value = self.encode_ghost_value(new_key, new_record, meta.projection.as_slice());
                ops.push(EntryOp::Insert { key, value });
            },
            Change::Leave => {
                let key = self.entry_key_for(meta, old_record, old_key);
                ops.push(EntryOp::Remove { key });
            },
            Change::Stay => {
                let was = self.entry_key_for(meta, old_record, old_key);
                let key = self.entry_key_for(meta, new_record, new_key);
                let value = self.encode_ghost_value(new_key, new_record, meta.projection.as_slice());
                let moved = !bytes::bytes_equal(key.as_slice(), was.as_slice());
                ops.push(EntryOp::Insert { key, value });
                if moved {
                    ops.push(EntryOp::Remove { key: was });
                }
            },
        }
        assert(entry_ops_view(ops@) =~= want);
        ops
    }

    /// The groups with a record taken in.
    pub open spec fn group_added(
        &self,
        m: Map<Seq<char>, AggregateStateV>,
        gk: Seq<char>,
        r: RecordV,
        specs: Seq<MetricV>,
    ) -> Map<Seq<char>, AggregateStateV> {
        let s = if m.contains_key(gk) {
            m[gk]
        } else {
            aggregate_state::no_records()
        };
        m.insert(gk, self.added(s, r, specs))
    }

    /// The groups with a record taken out; a group without records is gone.
    pub open spec fn group_subtracted(
        &self,
        m: Map<Seq<char>, AggregateStateV>,
        gk: Seq<char>,
        r: RecordV,
        specs: Seq<MetricV>,
    ) -> Map<Seq<char>, AggregateStateV> {
        if m.contains_key(gk) {
            let s = self.subtracted(m[gk], r, specs);
            if s.count == 0 {
                m.remove(gk)
            } else {
                m.insert(gk, s)
            }
        } else {
            m
        }
    }

    /// The groups with a record changed, within its group or from one to
    /// another.
    pub open spec fn group_changed(
        &self,
        m: Map<Seq<char>, AggregateStateV>,
        old_gk: Seq<char>,
        old_record: RecordV,
        new_gk: Seq<char>,
        new_record: RecordV,
        specs: Seq<MetricV>,
    ) -> Map<Seq<char>, AggregateStateV> {
        if old_gk == new_gk {
            if m.contains_key(old_gk) {
                m.insert(
                    old_gk,
                    self.added(self.subtracted(m[old_gk], old_record, specs), new_record, specs),
                )
            } else {
                m
            }
        } else {
            self.group_added(
                self.group_subtracted(m, old_gk, old_record, specs),
                new_gk,
                new_record,
                specs,
            )
        }
    }

    /// The aggregates after a change.
    pub open spec fn aggregate_after(
        &self,
        a: AggregateContentV,
        change: Change,
        old_record: RecordV,
        new_record: RecordV,
    ) -> AggregateContentV {
        let old_gk = self.group_key_of(old_record.fields, a.group_fields);
        let new_gk = self.group_key_of(new_record.fields, a.group_fields);
        let global = match change {
            Change::Unaffected => a.global,
            Change::Enter => self.added(a.global, new_record, a.specs),
            Change::Leave => self.subtracted(a.global, old_record, a.specs),
            Change::Stay => self.added(
                self.subtracted(a.global, old_record, a.specs),
                new_record,
                a.specs,
            ),
        };
        let residency = if a.group_fields.len() == 0 {
            a.residency
        } else {
            match a.residency {
                ResidencyV::Spilled => ResidencyV::Spilled,
                ResidencyV::InRam(m) => ResidencyV::InRam(
                    match change {
                        Change::Unaffected => m,
                        Change::Enter => self.group_added(m, new_gk, new_record, a.specs),
                        Change::Leave => self.group_subtracted(m, old_gk, old_record, a.specs),
                        Change::Stay => self.group_changed(
                            m,
                            old_gk,
                            old_record,
                            new_gk,
                            new_record,
                            a.specs,
                        ),
                    },
                ),
            }
        };
        AggregateContentV { global, residency, ..a }
    }

    /// All operations on entries were done.
    pub open spec fn all_done(ok: Seq<bool>) -> bool {
        forall|i: int| 0 <= i < ok.len() ==> #[trigger] ok[i]
    }

    /// The change stops at its entries: the entry of a record that enters or
    /// leaves could not be written.
    pub open spec fn stops(change: Change, ok: Seq<bool>) -> bool {
        (change == Change::Enter || change == Change::Leave) && !Self::all_done(ok)
    }

    /// The ghost after a change, before any rollup.
    pub open spec fn meta_after(
        &self,
        g: GhostMetaV,
        change: Change,
        ok: Seq<bool>,
        old_record: RecordV,
        new_record: RecordV,
        skip_aggregates: bool,
    ) -> GhostMetaV {
        let h = GhostMetaV {
            maintenance_degraded: g.maintenance_degraded || !Self::all_done(ok),
            ..g
        };
        if Self::stops(change, ok) {
            h
        } else {
            GhostMetaV {
                index_count: match change {
                    Change::Enter => ((g.index_count + 1) % 0x1_0000_0000_0000_0000) as u64,
                    Change::Leave => if g.index_count == 0 {
                        0
                    } else {
                        (g.index_count - 1) as u64
                    },
                    _ => g.index_count,
                },
                aggregate: match g.aggregate {
                    Some(a) => if skip_aggregates {
                        Some(a)
                    } else {
                        Some(self.aggregate_after(a, change, old_record, new_record))
                    },
                    None => None,
                },
                ..h
            }
        }
    }

    /// The deltas that a change asks for in the rollups of a ghost whose groups
    /// are there.
    pub open spec fn deltas_of(
        &self,
        g: GhostMetaV,
        a: AggregateContentV,
        change: Change,
        old_record: RecordV,
        new_record: RecordV,
    ) -> Seq<(Seq<u8>, Delta)> {
        let old_gk = self.group_key_of(old_record.fields, a.group_fields);
        let new_gk = self.group_key_of(new_record.fields, a.group_fields);
        let old_rollup = ghost_keys::rollup_key_bytes(g.ghost_id, old_gk);
        let new_rollup = ghost_keys::rollup_key_bytes(g.ghost_id, new_gk);
        match change {
            Change::Unaffected => Seq::empty(),
            Change::Enter => seq![(new_rollup, Delta::Plus)],
            Change::Leave => seq![(old_rollup, Delta::Minus)],
            Change::Stay => if old_gk == new_gk {
                seq![(old_rollup, Delta::Both)]
            } else {
                seq![(old_rollup, Delta::Minus), (new_rollup, Delta::Plus)]
            },
        }
    }

    /// What a change asks of the rollups: deltas where the groups are there
    /// already, all groups where they have become too many for memory, and
    /// else nothing.
    pub open spec fn asks_rollups(
        &self,
        g: GhostMetaV,
        change: Change,
        ok: Seq<bool>,
        old_record: RecordV,
        new_record: RecordV,
        skip_aggregates: bool,
        has_dictionary: bool,
        limit: usize,
        r: RollupOps,
    ) -> bool {
        let active = !Self::stops(change, ok) && !skip_aggregates && has_dictionary;
        match g.aggregate {
            Some(a) => if !active || a.group_fields.len() == 0 {
                r matches RollupOps::Append(v) && v@.len() == 0
            } else {
                match a.residency {
                    ResidencyV::Spilled => r matches RollupOps::Append(v) && deltas_view(v@)
                        == self.deltas_of(g, a, change, old_record, new_record),
                    ResidencyV::InRam(before) => if change == Change::Enter && self.group_added(
                        before,
                        self.group_key_of(new_record.fields, a.group_fields),
                        new_record,
                        a.specs,
                    ).dom().len() > limit {
                        r matches RollupOps::Spill(w) && ghost_spill::moves_groups(
                            ghost_spill::writes_view(w@),
                            g.ghost_id,
                            self.group_added(
                                before,
                                self.group_key_of(new_record.fields, a.group_fields),
                                new_record,
                                a.specs,
                            ),
                        )
                    } else {
                        r matches RollupOps::Append(v) && v@.len() == 0
                    },
                }
            },
            None => r matches RollupOps::Append(v) && v@.len() == 0,
        }
    }

    /// Takes a record into its group.
    pub(crate) fn add_to_group(
        &self,
        map: &mut Summaries,
        gk: String,
        record: &Record,
        specs: &Vec<Metric>,
    )
        requires
            self.sound(),
        ensures
            aggregate_state::summaries_view(final(map)@) == self.group_added(
                aggregate_state::summaries_view(old(map)@),
                gk@,
                record@,
                aggregate_state::metrics_view(specs@),
            ),
    {
        let ghost before = aggregate_state::summaries_view(map@);
        let state = match map.get(gk.as_str()) {
            Some(s) => self.add_record(s, record, specs),
            None => self.add_record(&AggregateState::default(), record, specs),
        };
        let ghost want = self.group_added(
            before,
            gk@,
            record@,
            aggregate_state::metrics_view(specs@),
        );
        map.insert(gk, state);
        assert(aggregate_state::summaries_view(map@) =~= want);
    }

    /// Takes a record out of its group.
    fn subtract_from_group(
        &self,
        map: &mut Summaries,
        gk: &str,
        record: &Record,
        specs: &Vec<Metric>,
    )
        requires
            self.sound(),
        ensures
            aggregate_state::summaries_view(final(map)@) == self.group_subtracted(
                aggregate_state::summaries_view(old(map)@),
                gk@,
                record@,
                aggregate_state::metrics_view(specs@),
            ),
    {
        let ghost before = aggregate_state::summaries_view(map@);
        let ghost want = self.group_subtracted(
            before,
            gk@,
            record@,
            aggregate_state::metrics_view(specs@),
        );
        let state = match map.get(gk) {
            Some(s) => self.subtract_record(s, record, specs),
            None => {
                return;
            },
        };
        if state.count == 0 {
            map.remove(gk);
        } else {
            map.insert(gk.to_owned(), state);
        }
        assert(aggregate_state::summaries_view(map@) =~= want);
    }

    /// Changes a record within its group or moves it to another.
    fn change_group(
        &self,
        map: &mut Summaries,
        old_gk: &str,
        old_record: &Record,
        new_gk: String,
        new_record: &Record,
        specs: &Vec<Metric>,
    )
        requires
            self.sound(),
        ensures
            aggregate_state::summaries_view(final(map)@) == self.group_changed(
                aggregate_state::summaries_view(old(map)@),
                old_gk@,
                old_record@,
                new_gk@,
                new_record@,
                aggregate_state::metrics_view(specs@),
            ),
    {
        if bytes::str_equal(old_gk, new_gk.as_str()) {
            let ghost before = aggregate_state::summaries_view(map@);
            let state = match map.get(old_gk) {
                Some(s) => {
                    let t = self.subtract_record(s, old_record, specs);
                    self.add_record(&t, new_record, specs)
                },
                None => {
                    return;
                },
            };
            let ghost s = state@;
            map.insert(new_gk, state);
            assert(aggregate_state::summaries_view(map@) =~= before.insert(old_gk@, s));
        } else {
            self.subtract_from_group(map, old_gk, old_record, specs);
            self.add_to_group(map, new_gk, new_record, specs);
        }
    }

    /// Takes what came of the entries into the ghost and gives what is to be
    /// written to the rollups. A record that stays has its aggregates changed
    /// even if an entry could not be written.
    #[verifier::spinoff_prover]
    #[verifier::rlimit(50)]
    pub fn settle_entries(
        &self,
        meta: &mut GhostMeta,
        change: Change,
        ok: &Vec<bool>,
        old_record: &Record,
        new_record: &Record,
        skip_aggregates: bool,
        has_dictionary: bool,
        limit: usize,
    ) -> (r: RollupOps)
        requires
            self.sound(),
            old(meta).wf(),
        ensures
            final(meta).wf(),
            final(meta)@ == self.meta_after(
                old(meta)@,
                change,
                ok@,
                old_record@,
                new_record@,
                skip_aggregates,
            ),
            self.asks_rollups(
                old(meta)@,
                change,
                ok@,
                old_record@,
                new_record@,
                skip_aggregates,
                has_dictionary,
                limit,
                r,
            ),
    {
        let done = all_ok(ok);
        if !done {
            meta.maintenance_degraded = true;
            if change == Change::Enter || change == Change::Leave {
                return RollupOps::Append(Vec::new());
            }
        }
        if change == Change::Enter {
            meta.index_count = meta.index_count.wrapping_add(1);
        } else if change == Change::Leave {
            meta.index_count = meta.index_count.saturating_sub(1);
        }
        if skip_aggregates || meta.aggregate.is_none() {
            return RollupOps::Append(Vec::new());
        }
        if change == Change::Unaffected {
            proof {
                self.lemma_unaffected(meta@.aggregate->Some_0, old_record@, new_record@);
            }
            let none: Vec<(Vec<u8>, Delta)> = Vec::new();
            assert(deltas_view(none@) =~= Seq::empty());
            return RollupOps::Append(none);
        }
        let ghost_id: u16 = meta.ghost_id;
        let mut taken: Option<ghost_meta::AggregateContent> = None;
        std::mem::swap(&mut taken, &mut meta.aggregate);
        match taken {
            None => RollupOps::Append(Vec::new()),
            Some(agg) => {
                let mut agg = agg;
                let ghost a = agg@;
                match change {
                    Change::Enter => {
                        agg.global_aggregates = self.add_record(
                            &agg.global_aggregates,
                            new_record,
                            &agg.aggregate_specs,
                        );
                    },
                    Change::Leave => {
                        agg.global_aggregates = self.subtract_record(
                            &agg.global_aggregates,
                            old_record,
                            &agg.aggregate_specs,
                        );
                    },
                    Change::Stay => {
                        let t = self.subtract_record(
                            &agg.global_aggregates,
                            old_record,
                            &agg.aggregate_specs,
                        );
                        agg.global_aggregates = self.add_record(
                            &t,
                            new_record,
                            &agg.aggregate_specs,
                        );
                    },
                    Change::Unaffected => {},
                }
                let mut out = RollupOps::Append(Vec::new());
                if agg.grouping.is_grouped() {
                    let old_gk = self.extract_group_key(&old_record.fields, agg.grouping.fields());
                    let new_gk = self.extract_group_key(&new_record.fields, agg.grouping.fields());
                    let mut residency = Residency::Spilled;
                    std::mem::swap(&mut residency, &mut agg.residency);
                    match residency {
                        Residency::Spilled => {
                            if has_dictionary {
                                let deltas = self.make_deltas(
                                    ghost_id,
                                    change,
                                    old_gk.as_str(),
                                    new_gk.as_str(),
                                );
                                out = RollupOps::Append(deltas);
                            }
                        },
                        Residency::InRam(m) => {
                            let mut m = m;
                            match change {
                                Change::Enter => {
                                    self.add_to_group(
                                        &mut m,
                                        new_gk,
                                        new_record,
                                        &agg.aggregate_specs,
                                    );
                                    assert(aggregate_state::summaries_view(m@).dom() =~= m@.dom());
                                    if m.len() > limit && has_dictionary {
                                        let mut spiller = RollupSpiller::new(ghost_id, limit);
                                        let w = spiller.spill(&m);
                                        out = RollupOps::Spill(w);
                                    }
                                },
                                Change::Leave => {
                                    self.subtract_from_group(
                                        &mut m,
                                        old_gk.as_str(),
                                        old_record,
                                        &agg.aggregate_specs,
                                    );
                                },
                                Change::Stay => {
                                    self.change_group(
                                        &mut m,
                                        old_gk.as_str(),
                                        old_record,
                                        new_gk,
                                        new_record,
                                        &agg.aggregate_specs,
                                    );
                                },
                                Change::Unaffected => {},
                            }
                            agg.residency = Residency::InRam(m);
                        },
                    }
                }
                assert(agg@ == self.aggregate_after(a, change, old_record@, new_record@));
                meta.aggregate = Some(agg);
                out
            },
        }
    }

    proof fn lemma_unaffected(&self, a: AggregateContentV, old_record: RecordV, new_record: RecordV)
        ensures
            self.aggregate_after(a, Change::Unaffected, old_record, new_record) == a,
    {
    }

    /// The deltas of a change.
    fn make_deltas(
        &self,
        ghost_id: u16,
        change: Change,
        old_gk: &str,
        new_gk: &str,
    ) -> (r: Vec<(Vec<u8>, Delta)>)
        ensures
            deltas_view(r@) == match change {
                Change::Unaffected => Seq::empty(),
                Change::Enter => seq![
                    (ghost_keys::rollup_key_bytes(ghost_id, new_gk@), Delta::Plus),
                ],
                Change::Leave => seq![
                    (ghost_keys::rollup_key_bytes(ghost_id, old_gk@), Delta::Minus),
                ],
                Change::Stay => if old_gk@ == new_gk@ {
                    seq![(ghost_keys::rollup_key_bytes(ghost_id, old_gk@), Delta::Both)]
                } else {
                    seq![
                        (ghost_keys::rollup_key_bytes(ghost_id, old_gk@), Delta::Minus),
                        (ghost_keys::rollup_key_bytes(ghost_id, new_gk@), Delta::Plus),
                    ]
                },
            },
    {
        let mut r: Vec<(Vec<u8>, Delta)> = Vec::new();
        match change {
            Change::Unaffected => {
                assert(deltas_view(r@) =~= Seq::empty());
            },
            Change::Enter => {
                r.push((ghost_keys::rollup_key(ghost_id, new_gk), Delta::Plus));
                assert(deltas_view(r@) =~= seq![
                    (ghost_keys::rollup_key_bytes(ghost_id, new_gk@), Delta::Plus),
                ]);
            },
            Change::Leave => {
                r.push((ghost_keys::rollup_key(ghost_id, old_gk), Delta::Minus));
                assert(deltas_view(r@) =~= seq![
                    (ghost_keys::rollup_key_bytes(ghost_id, old_gk@), Delta::Minus),
                ]);
            },
            Change::Stay => {
                if bytes::str_equal(old_gk, new_gk) {
                    r.push((ghost_keys::rollup_key(ghost_id, old_gk), Delta::Both));
                    assert(deltas_view(r@) =~= seq![
                        (ghost_keys::rollup_key_bytes(ghost_id, old_gk@), Delta::Both),
                    ]);
                } else {
                    r.push((ghost_keys::rollup_key(ghost_id, old_gk), Delta::Minus));
                    r.push((ghost_keys::rollup_key(ghost_id, new_gk), Delta::Plus));
                    assert(deltas_view(r@) =~= seq![
                        (ghost_keys::rollup_key_bytes(ghost_id, old_gk@), Delta::Minus),
                        (ghost_keys::rollup_key_bytes(ghost_id, new_gk@), Delta::Plus),
                    ]);
                }
            },
        }
        r
    }

    /// Where a record stays and its entry moves, the new entry is written
    /// before the old one is removed: the ghost is never without the record.
    pub proof fn law_moved_entry_is_written_first(
        &self,
        g: GhostMetaV,
        old_record: RecordV,
        new_record: RecordV,
        old_key: Seq<u8>,
        new_key: Seq<u8>,
    )
        requires
            self.meta_entry_key(g, new_record, new_key) != self.meta_entry_key(
                g,
                old_record,
                old_key,
            ),
        ensures
            ({
                let ops = self.entry_ops_of(
                    g,
                    Change::Stay,
                    old_record,
                    new_record,
                    old_key,
                    new_key,
                );
                &&& ops.len() == 2
                &&& ops[0] is Insert
                &&& ops[1] == EntryOpV::Remove {
                    key: self.meta_entry_key(g, old_record, old_key),
                }
            }),
    {
    }

    /// Leaving removes the entry that entering with the same record and key
    /// wrote.
    pub proof fn law_leave_removes_what_enter_wrote(
        &self,
        g: GhostMetaV,
        record: RecordV,
        key: Seq<u8>,
        other: RecordV,
        other_key: Seq<u8>,
    )
        ensures
            ({
                let enter = self.entry_ops_of(g, Change::Enter, other, record, other_key, key);
                let leave = self.entry_ops_of(g, Change::Leave, record, other, key, other_key);
                enter[0]->Insert_key == leave[0]->Remove_key
            }),
    {
    }

    /// While aggregates are not kept up to date, a change leaves them as they
    /// are, and entries are counted all the same.
    pub proof fn law_bulk_leaves_aggregates(
        &self,
        g: GhostMetaV,
        change: Change,
        ok: Seq<bool>,
        old_record: RecordV,
        new_record: RecordV,
    )
        ensures
            self.meta_after(g, change, ok, old_record, new_record, true).aggregate == g.aggregate,
            change == Change::Enter && Self::all_done(ok) && g.index_count < u64::MAX
                ==> self.meta_after(g, change, ok, old_record, new_record, true).index_count
                == g.index_count + 1,
    {
    }
}

/// Whether all operations were done.
fn all_ok(ok: &Vec<bool>) -> (r: bool)
    ensures
        r == forall|i: int| 0 <= i < ok@.len() ==> #[trigger] ok@[i],
{
    let mut i: usize = 0;
    while i < ok.len()
        invariant
            i <= ok@.len(),
            forall|j: int| 0 <= j < i ==> #[trigger] ok@[j],
        decreases ok@.len() - i,
    {
        if !ok[i] {
            assert(!ok@[i as int]);
            return false;
        }
        i = i + 1;
    }
    true
}

/// Takes what came of the rollups into the ghost: a delta that could not be
/// written leaves it degraded, and groups that were all written leave memory.
pub fn settle_rollups(meta: &mut GhostMeta, spilled: bool, ok: bool)
    requires
        old(meta).wf(),
    ensures
        final(meta).wf(),
        final(meta)@ == if spilled {
            match old(meta)@.aggregate {
                Some(a) => if ok {
                    GhostMetaV {
                        aggregate: Some(
                            AggregateContentV { residency: ResidencyV::Spilled, ..a },
                        ),
                        ..old(meta)@
                    }
                } else {
                    old(meta)@
                },
                None => old(meta)@,
            }
        } else {
            GhostMetaV {
                maintenance_degraded: old(meta)@.maintenance_degraded || !ok,
                ..old(meta)@
            }
        },
{
    if spilled {
        if ok {
            let mut taken: Option<ghost_meta::AggregateContent> = None;
            std::mem::swap(&mut taken, &mut meta.aggregate);
            if let Some(agg) = taken {
                let mut agg = agg;
                agg.residency = Residency::Spilled;
                meta.aggregate = Some(agg);
            }
        }
    } else if !ok {
        meta.maintenance_degraded = true;
    }
}

/// Whether the ghost takes writes.
pub fn takes_writes(meta: &GhostMeta) -> (r: bool)
    ensures
        r == (meta@.state != STATE_PAUSED),
        r == (meta@.state != 2),
{
    meta.state != STATE_PAUSED
}

/// Counts a write that the ghost was told of.
pub fn count_update(meta: &mut GhostMeta)
    ensures
        final(meta)@ == (GhostMetaV {
            incremental_updates: ((old(meta)@.incremental_updates + 1) % 0x1_0000_0000_0000_0000) as u64,
            ..old(meta)@
        }),
        old(meta).wf() ==> final(meta).wf(),
{
    meta.incremental_updates = meta.incremental_updates.wrapping_add(1);
}

/// A record enters a ghost where it matches after the write and was not there as one
/// that matches before it; it leaves where it was and does not match any more, and stays
/// where it did and does. One that was not there before an insert cannot leave, and one
/// that is deleted cannot stay.
pub proof fn law_membership_follows_matches(
    w: WriteType,
    old_matches: bool,
    new_matches: bool,
)
    ensures
        ({
            let belonged = old_matches && !(w is Insert);
            let belongs = new_matches && !(w is Delete);
            let c = change_of(w, old_matches, new_matches);
            &&& c is Enter <==> !belonged && belongs
            &&& c is Leave <==> belonged && !belongs
            &&& c is Stay <==> belonged && belongs
            &&& c is Unaffected <==> !belonged && !belongs
        }),
{
}

/// A ghost's entries after an operation on them.
pub open spec fn after_entry_op(m: Map<Seq<u8>, Seq<u8>>, op: EntryOpV) -> Map<Seq<u8>, Seq<u8>> {
    match op {
        EntryOpV::Insert { key, value } => m.insert(key, value),
        EntryOpV::Remove { key } => m.remove(key),
    }
}

/// A ghost's entries after operations in order.
pub open spec fn after_entry_ops(m: Map<Seq<u8>, Seq<u8>>, ops: Seq<EntryOpV>) -> Map<
    Seq<u8>,
    Seq<u8>,
>
    decreases ops.len(),
{
    if ops.len() == 0 {
        m
    } else {
        after_entry_op(after_entry_ops(m, ops.drop_last()), ops.last())
    }
}

impl<
    K: Fn(&Fields, &[String]) -> String,
    T: Fn(u16, Option<&Value>, bool, &[u8]) -> Vec<u8>,
    P: Fn(&Value) -> Option<Vec<u8>>,
    U: Fn(&[u8]) -> Option<Value>,
    A: Fn(&AggregateState, &Record, &Vec<Metric>) -> AggregateState,
    S: Fn(&AggregateState, &Record, &Vec<Metric>) -> AggregateState,
> GhostOps<K, T, P, U, A, S> {
    /// After a write the ghost has the entry of the record as it is now exactly where the
    /// record matches now, its entry as it was is gone unless it is the same, and every
    /// other entry is as it was.
    pub proof fn law_entries_follow_membership(
        &self,
        g: GhostMetaV,
        w: WriteType,
        old_matches: bool,
        new_matches: bool,
        old_record: RecordV,
        new_record: RecordV,
        old_key: Seq<u8>,
        new_key: Seq<u8>,
        entries: Map<Seq<u8>, Seq<u8>>,
        k: Seq<u8>,
    )
        ensures
            ({
                let belonged = old_matches && !(w is Insert);
                let belongs = new_matches && !(w is Delete);
                let before = self.meta_entry_key(g, old_record, old_key);
                let now = self.meta_entry_key(g, new_record, new_key);
                let after = after_entry_ops(
                    entries,
                    self.entry_ops_of(
                        g,
                        change_of(w, old_matches, new_matches),
                        old_record,
                        new_record,
                        old_key,
                        new_key,
                    ),
                );
                &&& belongs ==> after.contains_key(now) && after[now] == self.entry_value(
                    new_key,
                    new_record.fields,
                    g.projection,
                )
                &&& belonged && !(belongs && before == now) ==> !after.contains_key(before)
                &&& k != now && k != before ==> (after.contains_key(k) <==> entries.contains_key(k))
                    && (entries.contains_key(k) ==> after[k] == entries[k])
                &&& !belonged && !belongs ==> after == entries
            }),
    {
        let before = self.meta_entry_key(g, old_record, old_key);
        let now = self.meta_entry_key(g, new_record, new_key);
        let put = EntryOpV::Insert {
            key: now,
            value: self.entry_value(new_key, new_record.fields, g.projection),
        };
        let take = EntryOpV::Remove { key: before };
        assert(seq![put].drop_last() =~= Seq::<EntryOpV>::empty());
        assert(seq![take].drop_last() =~= Seq::<EntryOpV>::empty());
        assert(seq![put, take].drop_last() =~= seq![put]);
        assert(after_entry_ops(entries, Seq::<EntryOpV>::empty()) == entries);
        assert(after_entry_ops(entries, seq![put]) == after_entry_op(entries, put));
        assert(after_entry_ops(entries, seq![take]) == after_entry_op(entries, take));
        assert(after_entry_ops(entries, seq![put, take]) == after_entry_op(
            after_entry_op(entries, put),
            take,
        ));
    }

    /// A ghost counts its entries: one more for a record that enters, one less for one
    /// that leaves, where the entry could be written. What could not be written leaves it
    /// marked.
    pub proof fn law_ghost_counts_its_entries(
        &self,
        g: GhostMetaV,
        change: Change,
        ok: Seq<bool>,
        old_record: RecordV,
        new_record: RecordV,
        skip: bool,
    )
        ensures
            ({
                let h = self.meta_after(g, change, ok, old_record, new_record, skip);
                let done = forall|i: int| 0 <= i < ok.len() ==> #[trigger] ok[i];
                &&& change is Enter && done && g.index_count < u64::MAX ==> h.index_count
                    == g.index_count + 1
                &&& change is Leave && done && g.index_count > 0 ==> h.index_count
                    == g.index_count - 1
                &&& change is Stay || change is Unaffected || !done ==> h.index_count
                    == g.index_count
                &&& h.maintenance_degraded <==> g.maintenance_degraded || !done
                &&& (change is Enter || change is Leave) && !done ==> h.aggregate == g.aggregate
                &&& h.ghost_id == g.ghost_id && h.name == g.name && h.lobe_id == g.lobe_id
                    && h.filter == g.filter && h.projection == g.projection && h.lifecycle
                    == g.lifecycle
            }),
    {
    }

    /// The aggregate over all members takes in a record that enters, takes out one that
    /// leaves, and for one that stays takes out the record as it was and takes in the
    /// record as it is.
    pub proof fn law_total_follows_membership(
        &self,
        a: AggregateContentV,
        old_record: RecordV,
        new_record: RecordV,
    )
        ensures
            self.aggregate_after(a, Change::Unaffected, old_record, new_record).global == a.global,
            self.aggregate_after(a, Change::Enter, old_record, new_record).global == self.added(
                a.global,
                new_record,
                a.specs,
            ),
            self.aggregate_after(a, Change::Leave, old_record, new_record).global
                == self.subtracted(a.global, old_record, a.specs),
            self.aggregate_after(a, Change::Stay, old_record, new_record).global
                == self.aggregate_after(
                self.aggregate_after(a, Change::Leave, old_record, new_record),
                Change::Enter,
                old_record,
                new_record,
            ).global,
    {
    }

    /// Among the groups in memory a change touches only those that the record is in before
    /// and after it. The group that a record enters takes it in; the group that it leaves
    /// takes it out, and is gone where nothing is left in it.
    pub proof fn law_groups_follow_membership(
        &self,
        a: AggregateContentV,
        m: Map<Seq<char>, AggregateStateV>,
        change: Change,
        old_record: RecordV,
        new_record: RecordV,
        k: Seq<char>,
    )
        requires
            a.group_fields.len() > 0,
            a.residency == ResidencyV::InRam(m),
        ensures
            self.aggregate_after(a, change, old_record, new_record).residency is InRam,
            ({
                let after = self.aggregate_after(
                    a,
                    change,
                    old_record,
                    new_record,
                ).residency->InRam_0;
                let from = self.group_key_of(old_record.fields, a.group_fields);
                let to = self.group_key_of(new_record.fields, a.group_fields);
                let leaves = change is Leave || (change is Stay && from != to);
                let enters = change is Enter || (change is Stay && from != to);
                &&& change is Unaffected || (k != from && k != to) ==> (after.contains_key(k)
                    <==> m.contains_key(k)) && (m.contains_key(k) ==> after[k] == m[k])
                &&& enters && !leaves ==> after.contains_key(to) && after[to] == self.added(
                    if m.contains_key(to) {
                        m[to]
                    } else {
                        aggregate_state::no_records()
                    },
                    new_record,
                    a.specs,
                )
                &&& enters && leaves ==> after.contains_key(to) && after[to] == self.added(
                    if m.contains_key(to) {
                        m[to]
                    } else {
                        aggregate_state::no_records()
                    },
                    new_record,
                    a.specs,
                )
                &&& leaves && m.contains_key(from) ==> {
                    let rest = self.subtracted(m[from], old_record, a.specs);
                    &&& rest.count == 0 ==> !after.contains_key(from)
                    &&& rest.count > 0 ==> after.contains_key(from) && after[from] == rest
                }
                &&& change is Stay && from == to && m.contains_key(from) ==> after.contains_key(
                    from,
                ) && after[from] == self.added(
                    self.subtracted(m[from], old_record, a.specs),
                    new_record,
                    a.specs,
                )
            }),
    {
    }
}

impl<
    K: Fn(&Fields, &[String]) -> String,
    T: Fn(u16, Option<&Value>, bool, &[u8]) -> Vec<u8>,
    P: Fn(&Value) -> Option<Vec<u8>>,
    U: Fn(&[u8]) -> Option<Value>,
    A: Fn(&AggregateState, &Record, &Vec<Metric>) -> AggregateState,
    S: Fn(&AggregateState, &Record, &Vec<Metric>) -> AggregateState,
> GhostOps<K, T, P, U, A, S> {
    /// Of the rollups a change touches those of the groups that the record is in before and
    /// after it: one takes it in where it enters, one takes it out where it leaves, and one
    /// does both where it stays in its group.
    pub proof fn law_rollups_follow_membership(
        &self,
        g: GhostMetaV,
        a: AggregateContentV,
        change: Change,
        old_record: RecordV,
        new_record: RecordV,
        key: Seq<u8>,
    )
        ensures
            ({
                let from = self.group_key_of(old_record.fields, a.group_fields);
                let to = self.group_key_of(new_record.fields, a.group_fields);
                let d = self.deltas_of(g, a, change, old_record, new_record);
                let moves = change is Stay && from != to;
                &&& d.contains((key, Delta::Plus)) <==> (change is Enter || moves) && key
                    == ghost_keys::rollup_key_bytes(g.ghost_id, to)
                &&& d.contains((key, Delta::Minus)) <==> (change is Leave || moves) && key
                    == ghost_keys::rollup_key_bytes(g.ghost_id, from)
                &&& d.contains((key, Delta::Both)) <==> change is Stay && from == to && key
                    == ghost_keys::rollup_key_bytes(g.ghost_id, from)
                &&& d.len() == if change is Unaffected {
                    0nat
                } else if moves {
                    2nat
                } else {
                    1nat
                }
            }),
    {
        let from = self.group_key_of(old_record.fields, a.group_fields);
        let to = self.group_key_of(new_record.fields, a.group_fields);
        let d = self.deltas_of(g, a, change, old_record, new_record);
        let plus = (ghost_keys::rollup_key_bytes(g.ghost_id, to), Delta::Plus);
        let minus = (ghost_keys::rollup_key_bytes(g.ghost_id, from), Delta::Minus);
        let both = (ghost_keys::rollup_key_bytes(g.ghost_id, from), Delta::Both);
        if change is Enter {
            assert(d[0] == plus);
        } else if change is Leave {
            assert(d[0] == minus);
        } else if change is Stay && from == to {
            assert(d[0] == both);
        } else if change is Stay {
            assert(d[0] == minus && d[1] == plus);
        }
    }

    /// A change asks nothing of the rollups where it could not be made, aggregates are not
    /// kept up to date, there is no place for them, or the ghost has no groups. Where the
    /// groups are in the rollups it asks for the deltas. Where they are in memory, they are
    /// all moved once a record that enters makes them too many, and not before.
    pub proof fn law_rollups_are_asked_when_due(
        &self,
        g: GhostMetaV,
        change: Change,
        ok: Seq<bool>,
        old_record: RecordV,
        new_record: RecordV,
        skip: bool,
        has_dictionary: bool,
        limit: usize,
        r: RollupOps,
    )
        requires
            self.asks_rollups(
                g,
                change,
                ok,
                old_record,
                new_record,
                skip,
                has_dictionary,
                limit,
                r,
            ),
        ensures
            ({
                let done = forall|i: int| 0 <= i < ok.len() ==> #[trigger] ok[i];
                let idle = skip || !has_dictionary || ((change is Enter || change is Leave)
                    && !done) || g.group_fields().len() == 0;
                &&& idle ==> (r matches RollupOps::Append(v) && v@.len() == 0)
                &&& !idle && g.aggregate->Some_0.residency is Spilled ==> (
                r matches RollupOps::Append(v) && deltas_view(v@) == self.deltas_of(
                    g,
                    g.aggregate->Some_0,
                    change,
                    old_record,
                    new_record,
                ))
                &&& r is Spill ==> !idle && change is Enter
                &&& r matches RollupOps::Spill(w) ==> g.aggregate->Some_0.residency is InRam
                    && ghost_spill::moves_groups(
                    ghost_spill::writes_view(w@),
                    g.ghost_id,
                    self.aggregate_after(
                        g.aggregate->Some_0,
                        change,
                        old_record,
                        new_record,
                    ).residency->InRam_0,
                )
            }),
    {
    }
}

} // verus!
