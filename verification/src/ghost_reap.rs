//! Dropping ghosts that are no longer worth their keep: those whose time to live
//! is over, and the least recently used one where a lobe has enough of a class.

use crate::ghost_meta::{ExpiredGhost, GhostMetaV, GhostType};
use crate::ghost_store;
use crate::ghost_store::GhostLobeManager;
use vstd::prelude::*;

verus! {

/// The ghosts by lobe and name, and the lobe that each name leads to.
pub struct StoreV {
    pub stored: Map<(u16, Seq<char>), GhostMetaV>,
    pub names: Map<Seq<char>, u16>,
}

/// The store without the ghost that a name leads to.
pub open spec fn after_drop(s: StoreV, name: Seq<char>) -> StoreV {
    if s.names.contains_key(name) {
        StoreV {
            stored: s.stored.remove((s.names[name], name)),
            names: s.names.remove(name),
        }
    } else {
        s
    }
}

/// The store after several drops, from first to last.
pub open spec fn after_drops(s: StoreV, names: Seq<Seq<char>>) -> StoreV
    decreases names.len(),
{
    if names.len() == 0 {
        s
    } else {
        after_drop(after_drops(s, names.drop_last()), names.last())
    }
}

/// The numbers of the ghosts that drops find, with the names and lobes that were
/// asked for.
pub open spec fn found_drops(s: StoreV, ghosts: Seq<(Seq<char>, u16)>) -> Seq<
    (u16, Seq<char>, u16),
>
    decreases ghosts.len(),
{
    if ghosts.len() == 0 {
        Seq::empty()
    } else {
        let before = after_drops(s, names_of(ghosts.drop_last()));
        let (name, lobe) = ghosts.last();
        let found = found_drops(s, ghosts.drop_last());
        if before.names.contains_key(name) {
            found.push((before.stored[(before.names[name], name)].ghost_id, name, lobe))
        } else {
            found
        }
    }
}

/// The names.
pub open spec fn names_of(ghosts: Seq<(Seq<char>, u16)>) -> Seq<Seq<char>> {
    ghosts.map_values(|g: (Seq<char>, u16)| g.0)
}

/// The ghosts whose time to live is over, by name and lobe.
pub open spec fn expired(listed: Seq<GhostMetaV>, now: i64) -> Seq<(Seq<char>, u16)> {
    ghost_store::selected(listed, ghost_store::expired_at(now)).map_values(
        |g: GhostMetaV| (g.name, g.lobe_id),
    )
}

/// The numbers, names and lobes of dropped ghosts.
pub open spec fn dropped_view(s: Seq<(u16, ExpiredGhost)>) -> Seq<(u16, Seq<char>, u16)> {
    s.map_values(|d: (u16, ExpiredGhost)| (d.0, d.1.name@, d.1.lobe_id))
}

impl GhostLobeManager {
    /// What the store holds.
    pub open spec fn store(&self) -> StoreV {
        StoreV { stored: self.stored(), names: self.names() }
    }

    /// Takes every ghost whose time to live is over out of the store. Each is
    /// handed back with its number, under which its entries, rollups and metadata
    /// are to be purged.
    pub fn drop_expired_ghosts(&mut self, now: i64) -> (r: Vec<(u16, ExpiredGhost)>)
        requires
            old(self).wf(),
        ensures
            final(self).wf(),
            dropped_view(r@) == found_drops(old(self).store(), expired(old(self).listed(), now)),
            final(self).store() == after_drops(
                old(self).store(),
                names_of(expired(old(self).listed(), now)),
            ),
            final(self).next() == old(self).next(),
            final(self).bulk() == old(self).bulk(),
            final(self).hook_cost() == old(self).hook_cost(),
            forall|l: u16| final(self).known(l) == old(self).known(l),
    {
        let ghost start = self.store();
        let ghost due = expired(self.listed(), now);
        let candidates = self.identify_expired_ghosts(now);
        let mut r: Vec<(u16, ExpiredGhost)> = Vec::new();
        let mut i: usize = 0;
        proof {
            assert(due.take(0) =~= Seq::empty());
            assert(names_of(due.take(0)) =~= Seq::empty());
            assert(dropped_view(r@) =~= Seq::empty());
        }
        while i < candidates.len()
            invariant
                i <= candidates@.len(),
                self.wf(),
                candidates@.len() == due.len(),
                forall|j: int|
                    0 <= j < due.len() ==> (#[trigger] candidates@[j]).name@ == due[j].0
                        && candidates@[j].lobe_id == due[j].1,
                self.store() == after_drops(start, names_of(due.take(i as int))),
                dropped_view(r@) == found_drops(start, due.take(i as int)),
                self.next() == old(self).next(),
                self.bulk() == old(self).bulk(),
                self.hook_cost() == old(self).hook_cost(),
                forall|l: u16| self.known(l) == old(self).known(l),
            decreases candidates@.len() - i,
        {
            let ghost before = self.store();
            let ghost r0 = r@;
            let name = candidates[i].name.clone();
            let lobe_id: u16 = candidates[i].lobe_id;
            proof {
                assert(due.take(i + 1).drop_last() =~= due.take(i as int));
                assert(names_of(due.take(i + 1)).drop_last() =~= names_of(due.take(i as int)));
                assert(names_of(due.take(i + 1)).last() == name@);
                if self.names().contains_key(name@) {
                    self.law_index_leads_to_ghost(name@);
                }
            }
            match self.drop_ghost(name.as_str()) {
                Ok((id, _message)) => {
                    r.push((id, ExpiredGhost { name, lobe_id }));
                    assert(dropped_view(r@) =~= dropped_view(r0).push((id, name@, lobe_id)));
                },
                Err(_) => {},
            }
            i = i + 1;
        }
        assert(due.take(i as int) =~= due);
        r
    }

    /// Makes room for one more ghost of a class over a lobe: where there are `max`
    /// or more, the least recently used one is taken out of the store and handed
    /// back with its number.
    pub fn evict_lru_at_limit(&mut self, source_lobe: &str, ghost_type: GhostType, max: usize) -> (r:
        Option<(u16, ExpiredGhost)>)
        requires
            old(self).wf(),
        ensures
            final(self).wf(),
            is_evicted(*old(self), final(self).store(), source_lobe@, ghost_type, max, r),
            final(self).next() == old(self).next(),
            final(self).bulk() == old(self).bulk(),
            final(self).hook_cost() == old(self).hook_cost(),
            forall|l: u16| final(self).known(l) == old(self).known(l),
    {
        if self.count_by_type(source_lobe, ghost_type) < max {
            return None;
        }
        match self.identify_lru(source_lobe, ghost_type) {
            Some(name) => {
                proof {
                    if self.names().contains_key(name@) {
                        self.law_index_leads_to_ghost(name@);
                    }
                }
                match self.remove_ghost_entry(name.as_str()) {
                    Some(m) => Some((m.ghost_id, ExpiredGhost { name, lobe_id: m.lobe_id })),
                    None => None,
                }
            },
            None => None,
        }
    }
}

/// Where there are `max` or more ghosts of the class, the one that was not used
/// for longest is dropped and handed out with its number, unless its name leads
/// nowhere.
pub open spec fn is_evicted(
    before: GhostLobeManager,
    after: StoreV,
    source_lobe: Seq<char>,
    ghost_type: GhostType,
    max: usize,
    r: Option<(u16, ExpiredGhost)>,
) -> bool {
    let keep = ghost_store::of_type(source_lobe, ghost_type);
    let many = ghost_store::selected(before.listed(), keep).len() >= max;
    if many && exists|i: int| #[trigger] before.is_lru(source_lobe, ghost_type, i) {
        let i = choose|i: int| #[trigger] before.is_lru(source_lobe, ghost_type, i);
        let g = before.listed()[i];
        &&& after == after_drop(before.store(), g.name)
        &&& match before.named(g.name) {
            Some(found) => r matches Some((id, v)) && id == found.ghost_id && v.name@ == g.name
                && v.lobe_id == found.lobe_id,
            None => r is None,
        }
    } else {
        after == before.store() && r is None
    }
}

/// To make room before a ghost of a class is created keeps the class within its
/// limit: it then has fewer than `max` ghosts, and with the new one `max` at most.
/// Each ghost's name leads to it.
pub proof fn law_limit_is_kept(
    before: GhostLobeManager,
    after: GhostLobeManager,
    created: GhostLobeManager,
    g: GhostMetaV,
    source_lobe: Seq<char>,
    ghost_type: GhostType,
    max: usize,
    r: Option<(u16, ExpiredGhost)>,
)
    requires
        before.wf(),
        after.wf(),
        created.wf(),
        forall|i: int|
            0 <= i < before.listed().len() ==> before.names().contains_key(
                (#[trigger] before.listed()[i]).name,
            ) && before.names()[before.listed()[i].name] == before.listed()[i].lobe_id,
        0 < max,
        ghost_store::selected(
            before.listed(),
            ghost_store::of_type(source_lobe, ghost_type),
        ).len() <= max,
        is_evicted(before, after.store(), source_lobe, ghost_type, max, r),
        created.stored() == after.stored().insert((g.lobe_id, g.name), g),
    ensures
        ghost_store::selected(
            after.listed(),
            ghost_store::of_type(source_lobe, ghost_type),
        ).len() < max,
        ghost_store::selected(
            created.listed(),
            ghost_store::of_type(source_lobe, ghost_type),
        ).len() <= max,
{
    let keep = ghost_store::of_type(source_lobe, ghost_type);
    before.law_listed_in_order();
    after.law_listed_in_order();
    created.law_listed_in_order();
    ghost_store::lemma_selected_places(before.listed(), keep);
    ghost_store::lemma_selected_places(after.listed(), keep);
    ghost_store::lemma_selected_places(created.listed(), keep);
    let b = ghost_store::places_of(before.stored(), keep);
    let a = ghost_store::places_of(after.stored(), keep);
    let c = ghost_store::places_of(created.stored(), keep);
    if ghost_store::selected(before.listed(), keep).len() >= max {
        before.lemma_lru_exists(source_lobe, ghost_type);
        let i = choose|i: int| #[trigger] before.is_lru(source_lobe, ghost_type, i);
        let gone = before.listed()[i];
        let k = (gone.lobe_id, gone.name);
        ghost_store::lemma_at(before.listed(), i);
        assert(b.contains(k));
        assert(a =~= b.remove(k));
    } else {
        assert(a == b);
    }
    let k = (g.lobe_id, g.name);
    assert(c.subset_of(a.insert(k)));
    vstd::set_lib::lemma_len_subset(c, a.insert(k));
}

/// A drop takes the ghost of a name, and its name, and leaves every other.
pub proof fn law_drop_takes_one(s: StoreV, name: Seq<char>, other: Seq<char>, k: (u16, Seq<char>))
    ensures
        !after_drop(s, name).names.contains_key(name),
        s.names.contains_key(name) ==> !after_drop(s, name).stored.contains_key(
            (s.names[name], name),
        ),
        other != name ==> (after_drop(s, name).names.contains_key(other)
            <==> s.names.contains_key(other)) && (s.names.contains_key(other) ==> after_drop(
            s,
            name,
        ).names[other] == s.names[other]),
        k.1 != name ==> (after_drop(s, name).stored.contains_key(k) <==> s.stored.contains_key(k))
            && (s.stored.contains_key(k) ==> after_drop(s, name).stored[k] == s.stored[k]),
        !s.names.contains_key(name) ==> after_drop(s, name) == s,
{
}

/// The ghosts that expire are those with a time to live that were not used for longer,
/// in the order of the listing.
pub proof fn law_expired_are_idle(listed: Seq<GhostMetaV>, now: i64)
    requires
        forall|i: int|
            0 <= i < listed.len() ==> now - (#[trigger] listed[i]).last_accessed <= i64::MAX && (
            listed[i].lifecycle matches crate::ghost_meta::GhostLifecycle::Auto {
                ttl_seconds,
                ..
            } ==> ttl_seconds * 1_000_000 <= i64::MAX),
    ensures
        expired(listed, now) == listed.filter(
            |g: GhostMetaV|
                g.lifecycle matches crate::ghost_meta::GhostLifecycle::Auto { ttl_seconds, .. }
                    && now - g.last_accessed > ttl_seconds * 1_000_000,
        ).map_values(|g: GhostMetaV| (g.name, g.lobe_id)),
{
    let over = |g: GhostMetaV|
        g.lifecycle matches crate::ghost_meta::GhostLifecycle::Auto { ttl_seconds, .. } && now
            - g.last_accessed > ttl_seconds * 1_000_000;
    ghost_store::law_selected_are_kept(listed, ghost_store::expired_at(now));
    assert forall|i: int| 0 <= i < listed.len() implies ghost_store::expired_at(now)(
        #[trigger] listed[i],
    ) == over(listed[i]) by {}
    lemma_filters_agree(listed, ghost_store::expired_at(now), over);
}

proof fn lemma_filters_agree(
    s: Seq<GhostMetaV>,
    p: spec_fn(GhostMetaV) -> bool,
    q: spec_fn(GhostMetaV) -> bool,
)
    requires
        forall|i: int| 0 <= i < s.len() ==> p(#[trigger] s[i]) == q(s[i]),
    ensures
        s.filter(p) == s.filter(q),
    decreases s.len(),
{
    reveal(Seq::filter);
    if s.len() > 0 {
        let d = s.drop_last();
        assert forall|i: int| 0 <= i < d.len() implies p(#[trigger] d[i]) == q(d[i]) by {
            assert(d[i] == s[i]);
        }
        lemma_filters_agree(d, p, q);
        assert(s[s.len() - 1] == s.last());
    }
}

/// After several drops none of the names leads to a ghost, and every other name leads
/// where it did.
pub proof fn law_drops_take_all(s: StoreV, names: Seq<Seq<char>>, name: Seq<char>)
    ensures
        names.contains(name) ==> !after_drops(s, names).names.contains_key(name),
        !names.contains(name) ==> (after_drops(s, names).names.contains_key(name)
            <==> s.names.contains_key(name)) && (s.names.contains_key(name) ==> after_drops(
            s,
            names,
        ).names[name] == s.names[name]),
        forall|lobe: u16|
            !names.contains(name) ==> (#[trigger] after_drops(s, names).stored.contains_key(
                (lobe, name),
            ) <==> s.stored.contains_key((lobe, name))) && (s.stored.contains_key((lobe, name))
                ==> after_drops(s, names).stored[(lobe, name)] == s.stored[(lobe, name)]),
    decreases names.len(),
{
    if names.len() > 0 {
        let d = names.drop_last();
        law_drops_take_all(s, d, name);
        if names.contains(name) && name != names.last() {
            let i = choose|i: int| 0 <= i < names.len() && names[i] == name;
            assert(d[i] == name);
        }
        if d.contains(name) {
            let i = choose|i: int| 0 <= i < d.len() && d[i] == name;
            assert(names[i] == name);
        }
        assert(names[names.len() - 1] == names.last());
    }
}

/// A drop that finds its ghost hands out its number with the name and the lobe that were
/// asked for; one that finds none hands out nothing.
pub proof fn law_drops_hand_out_numbers(
    s: StoreV,
    ghosts: Seq<(Seq<char>, u16)>,
    name: Seq<char>,
    lobe: u16,
)
    ensures
        ({
            let before = after_drops(s, names_of(ghosts));
            &&& before.names.contains_key(name) ==> found_drops(s, ghosts.push((name, lobe)))
                == found_drops(s, ghosts).push(
                (before.stored[(before.names[name], name)].ghost_id, name, lobe),
            )
            &&& !before.names.contains_key(name) ==> found_drops(s, ghosts.push((name, lobe)))
                == found_drops(s, ghosts)
        }),
        found_drops(s, Seq::empty()).len() == 0,
{
    assert(ghosts.push((name, lobe)).drop_last() =~= ghosts);
}

} // verus!
