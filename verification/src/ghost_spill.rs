//! Moving the groups of a ghost from memory to the rollups of the dictionary.

use crate::aggregate_state;
use crate::aggregate_state::{AggregateState, AggregateStateV, Summaries};
use crate::bytes;
use crate::ghost_keys;
use crate::sorted_map;
use crate::text;
use vstd::prelude::*;

verus! {

/// How many groups a ghost may keep in memory unless configured.
pub const DEFAULT_SPILL_LIMIT: usize = 65_536;

/// How many groups a ghost may keep in memory: the configured number, where it
/// is one.
pub fn group_spill_limit(configured: Option<&str>) -> (n: usize)
    ensures
        n == match configured {
            Some(s) => match text::parsed_usize(s@) {
                Some(k) => k,
                None => DEFAULT_SPILL_LIMIT,
            },
            None => DEFAULT_SPILL_LIMIT,
        },
        configured is None ==> n == 65_536,
{
    match configured {
        Some(s) => match text::parse_usize(s) {
            Some(k) => k,
            None => DEFAULT_SPILL_LIMIT,
        },
        None => DEFAULT_SPILL_LIMIT,
    }
}

/// A state to be appended to the rollup of its key.
pub struct RollupWrite {
    pub key: Vec<u8>,
    pub state: AggregateState,
}

/// What a [`RollupWrite`] says.
pub struct RollupWriteV {
    pub key: Seq<u8>,
    pub state: AggregateStateV,
}

impl View for RollupWrite {
    type V = RollupWriteV;

    open spec fn view(&self) -> RollupWriteV {
        RollupWriteV { key: self.key@, state: self.state@ }
    }
}

/// What writes say.
pub open spec fn writes_view(w: Seq<RollupWrite>) -> Seq<RollupWriteV> {
    w.map_values(|x: RollupWrite| x@)
}

/// `names` lists the keys of the map in order.
pub open spec fn lists_keys(names: Seq<Seq<char>>, m: Map<Seq<char>, AggregateStateV>) -> bool {
    &&& forall|i: int, j: int|
        #![trigger names[i], names[j]]
        0 <= i < j < names.len() ==> bytes::str_lt(names[i], names[j])
    &&& forall|k: Seq<char>| #[trigger] m.contains_key(k) <==> names.contains(k)
}

/// The write of a group.
pub open spec fn group_write(
    ghost_id: u16,
    m: Map<Seq<char>, AggregateStateV>,
    name: Seq<char>,
) -> RollupWriteV {
    RollupWriteV { key: ghost_keys::rollup_key_bytes(ghost_id, name), state: m[name] }
}

/// The writes of the groups, in this order.
pub open spec fn group_writes(
    ghost_id: u16,
    m: Map<Seq<char>, AggregateStateV>,
    names: Seq<Seq<char>>,
) -> Seq<RollupWriteV> {
    Seq::new(names.len(), |i: int| group_write(ghost_id, m, names[i]))
}

/// The writes move every group of the map, in the order of the group keys.
pub open spec fn moves_groups(
    w: Seq<RollupWriteV>,
    ghost_id: u16,
    m: Map<Seq<char>, AggregateStateV>,
) -> bool {
    exists|names: Seq<Seq<char>>| #[trigger]
        lists_keys(names, m) && w == group_writes(ghost_id, m, names)
}

/// Moves the groups of one ghost out of memory when they become too many.
pub struct RollupSpiller {
    ghost_id: u16,
    spill_count: u32,
    limit: usize,
}

impl RollupSpiller {
    /// The ghost whose groups are moved.
    pub closed spec fn id(&self) -> u16 {
        self.ghost_id
    }

    /// How often groups were moved.
    pub closed spec fn count(&self) -> u32 {
        self.spill_count
    }

    /// How many groups may stay in memory.
    pub closed spec fn max_groups(&self) -> usize {
        self.limit
    }

    /// Nothing moved yet.
    pub fn new(ghost_id: u16, limit: usize) -> (r: Self)
        ensures
            r.id() == ghost_id,
            r.count() == 0,
            r.max_groups() == limit,
    {
        RollupSpiller { ghost_id, spill_count: 0, limit }
    }

    /// Whether groups were moved.
    pub fn spilled(&self) -> (r: bool)
        ensures
            r == (self.count() > 0),
    {
        self.spill_count > 0
    }

    /// The writes that move all groups out of memory. Each is a blind append:
    /// the states of a group that was moved before are folded with it.
    pub fn spill(&mut self, map: &Summaries) -> (w: Vec<RollupWrite>)
        ensures
            final(self).id() == old(self).id(),
            final(self).max_groups() == old(self).max_groups(),
            final(self).count() > 0,
            final(self).count() == old(self).count() + 1 || final(self).count() == u32::MAX,
            moves_groups(
                writes_view(w@),
                old(self).id(),
                aggregate_state::summaries_view(map@),
            ),
    {
        self.spill_count = self.spill_count.saturating_add(1);
        proof {
            use_type_invariant(map);
            map.lemma_listed();
        }
        let ghost listed = map.listed();
        let ghost m = aggregate_state::summaries_view(map@);
        let ghost names: Seq<Seq<char>> = Seq::new(listed.len(), |i: int| listed[i].0@);
        let mut w: Vec<RollupWrite> = Vec::new();
        let mut i: usize = 0;
        while i < map.len()
            invariant
                i <= listed.len(),
                listed == map.listed(),
                sorted_map::names_increase(listed),
                map@ == sorted_map::entries_map(listed),
                m == aggregate_state::summaries_view(map@),
                names == Seq::new(listed.len(), |i: int| listed[i].0@),
                w@.len() == i,
                forall|j: int|
                    0 <= j < i ==> (#[trigger] w@[j])@ == group_write(
                        self.ghost_id,
                        m,
                        names[j],
                    ),
            decreases listed.len() - i,
        {
            let key = ghost_keys::rollup_key(self.ghost_id, map.name_at(i).as_str());
            w.push(RollupWrite { key, state: map.value_at(i).clone_state() });
            proof {
                sorted_map::lemma_entry_in_map(listed, i as int);
            }
            i = i + 1;
        }
        proof {
            assert(lists_keys(names, m)) by {
                assert forall|a: int, b: int|
                    #![trigger names[a], names[b]]
                    0 <= a < b < names.len() implies bytes::str_lt(names[a], names[b]) by {
                    assert(bytes::str_lt(listed[a].0@, listed[b].0@));
                }
                assert forall|k: Seq<char>| #[trigger] m.contains_key(k) <==> names.contains(k) by {
                    if m.contains_key(k) {
                        let j = choose|j: int| sorted_map::holds_at(listed, k, j);
                        assert(names[j] == k);
                    }
                    if names.contains(k) {
                        let j = choose|j: int| 0 <= j < names.len() && names[j] == k;
                        sorted_map::lemma_entry_in_map(listed, j);
                    }
                }
            }
            assert(writes_view(w@) =~= group_writes(self.ghost_id, m, names));
        }
        w
    }

    /// Moves the groups out of memory when there are more than may stay.
    pub fn maybe_spill(&mut self, map: &mut Summaries) -> (w: Vec<RollupWrite>)
        ensures
            final(self).id() == old(self).id(),
            final(self).max_groups() == old(self).max_groups(),
            if old(map)@.dom().len() > old(self).max_groups() {
                &&& final(self).count() > 0
                &&& final(map)@ == Map::<Seq<char>, AggregateState>::empty()
                &&& moves_groups(
                    writes_view(w@),
                    old(self).id(),
                    aggregate_state::summaries_view(old(map)@),
                )
            } else {
                &&& final(self).count() == old(self).count()
                &&& final(map)@ == old(map)@
                &&& w@.len() == 0
            },
    {
        if map.len() > self.limit {
            let w = self.spill(map);
            map.clear();
            w
        } else {
            Vec::new()
        }
    }

    /// Moves what is left in memory once groups were moved before, so that
    /// either all groups are in memory or none is.
    pub fn finalize(&mut self, map: &mut Summaries) -> (w: Vec<RollupWrite>)
        ensures
            final(self).id() == old(self).id(),
            final(self).max_groups() == old(self).max_groups(),
            final(self).count() > 0 <==> old(self).count() > 0,
            if old(self).count() > 0 {
                &&& final(map)@ == Map::<Seq<char>, AggregateState>::empty()
                &&& moves_groups(
                    writes_view(w@),
                    old(self).id(),
                    aggregate_state::summaries_view(old(map)@),
                )
            } else {
                &&& final(map)@ == old(map)@
                &&& w@.len() == 0
            },
    {
        if self.spilled() && !map.is_empty() {
            let w = self.spill(map);
            map.clear();
            w
        } else {
            let w: Vec<RollupWrite> = Vec::new();
            proof {
                if self.count() > 0 {
                    let m = aggregate_state::summaries_view(map@);
                    let names = Seq::<Seq<char>>::empty();
                    assert(map@ =~= Map::<Seq<char>, AggregateState>::empty());
                    assert(lists_keys(names, m));
                    assert(writes_view(w@) =~= group_writes(self.ghost_id, m, names));
                }
            }
            w
        }
    }
}

/// Every group that is moved out of memory is written under its own key with its state,
/// and nothing else is written.
pub proof fn law_every_group_is_moved(
    w: Seq<RollupWriteV>,
    ghost_id: u16,
    m: Map<Seq<char>, AggregateStateV>,
    k: Seq<char>,
    i: int,
)
    requires
        moves_groups(w, ghost_id, m),
    ensures
        m.contains_key(k) ==> w.contains(
            RollupWriteV { key: ghost_keys::rollup_key_bytes(ghost_id, k), state: m[k] },
        ),
        0 <= i < w.len() ==> exists|n: Seq<char>| #[trigger]
            m.contains_key(n) && w[i] == (RollupWriteV {
                key: ghost_keys::rollup_key_bytes(ghost_id, n),
                state: m[n],
            }),
{
    let names = choose|names: Seq<Seq<char>>| #[trigger]
        lists_keys(names, m) && w == group_writes(ghost_id, m, names);
    if m.contains_key(k) {
        assert(names.contains(k));
        let j = choose|j: int| 0 <= j < names.len() && names[j] == k;
        assert(w[j] == group_write(ghost_id, m, k));
    }
    if 0 <= i < w.len() {
        assert(names.contains(names[i]));
        assert(m.contains_key(names[i]));
    }
}

} // verus!
