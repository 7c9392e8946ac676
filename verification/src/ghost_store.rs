//! The ghosts of all lobes: the store, its counts and lists, and the
//! lifecycle of the ghosts in it.

use crate::aggregate_state;
use crate::aggregate_state::{AggregateState, AggregateStateV};
use crate::ast::FilterExpr;
use crate::bytes;
use crate::error::XyzError;
use crate::ghost_meta;
use crate::ghost_meta::{
    AccessTelemetry, AutoClass, ExpiredGhost, GhostLifecycle, GhostMeta, GhostMetaV, GhostType,
    OverheadTracker, Residency, ResidencyV,
};
use crate::sorted_map;
use crate::sorted_map::SortedMap;
use crate::text;
use vstd::prelude::*;

verus! {

/// What ghosts stand for.
pub open spec fn metas_view(s: Seq<GhostMeta>) -> Seq<GhostMetaV> {
    s.map_values(|m: GhostMeta| m@)
}

/// The ghost comes before the lobe and name.
pub open spec fn comes_before(g: GhostMetaV, lobe: u16, name: Seq<char>) -> bool {
    g.lobe_id < lobe || (g.lobe_id == lobe && bytes::str_lt(g.name, name))
}

/// The ghosts are in order: by lobe, and within a lobe by name.
pub open spec fn in_order(s: Seq<GhostMetaV>) -> bool {
    forall|i: int, j: int|
        #![trigger s[i], s[j]]
        0 <= i < j < s.len() ==> comes_before(s[i], s[j].lobe_id, s[j].name)
}

/// The ghost of that lobe and name is at `i`.
pub open spec fn at(s: Seq<GhostMetaV>, lobe: u16, name: Seq<char>, i: int) -> bool {
    0 <= i < s.len() && s[i].lobe_id == lobe && s[i].name == name
}

/// The ghosts by lobe and name.
pub open spec fn by_name(s: Seq<GhostMetaV>) -> Map<(u16, Seq<char>), GhostMetaV> {
    Map::new(
        |k: (u16, Seq<char>)| exists|i: int| at(s, k.0, k.1, i),
        |k: (u16, Seq<char>)| s[choose|i: int| at(s, k.0, k.1, i)],
    )
}

/// In order, each lobe and name has one place.
pub proof fn lemma_one_spot(s: Seq<GhostMetaV>, lobe: u16, name: Seq<char>, i: int, j: int)
    requires
        in_order(s),
        at(s, lobe, name, i),
        at(s, lobe, name, j),
    ensures
        i == j,
{
    if i < j {
        assert(comes_before(s[i], s[j].lobe_id, s[j].name));
        bytes::lemma_lex_irreflexive(vstd::utf8::encode_utf8(name));
    } else if j < i {
        assert(comes_before(s[j], s[i].lobe_id, s[i].name));
        bytes::lemma_lex_irreflexive(vstd::utf8::encode_utf8(name));
    }
}

/// What is at a place is found by its lobe and name.
pub proof fn lemma_at(s: Seq<GhostMetaV>, i: int)
    requires
        in_order(s),
        0 <= i < s.len(),
    ensures
        by_name(s).contains_key((s[i].lobe_id, s[i].name)),
        by_name(s)[(s[i].lobe_id, s[i].name)] == s[i],
{
    let lobe = s[i].lobe_id;
    let name = s[i].name;
    let k = (lobe, name);
    assert(at(s, k.0, k.1, i));
    let j = choose|j: int| at(s, k.0, k.1, j);
    lemma_one_spot(s, lobe, name, i, j);
}

/// `p` is where a ghost of that lobe and name is or belongs.
pub open spec fn is_place(s: Seq<GhostMetaV>, lobe: u16, name: Seq<char>, p: int) -> bool {
    &&& 0 <= p <= s.len()
    &&& forall|j: int| 0 <= j < p ==> comes_before(#[trigger] s[j], lobe, name)
    &&& p < s.len() ==> !comes_before(s[p], lobe, name)
}

proof fn lemma_after_place(s: Seq<GhostMetaV>, lobe: u16, name: Seq<char>, p: int, j: int)
    requires
        in_order(s),
        is_place(s, lobe, name, p),
        p <= j < s.len(),
    ensures
        at(s, lobe, name, j) ==> j == p,
        !at(s, lobe, name, j) ==> lobe < s[j].lobe_id || (lobe == s[j].lobe_id && bytes::str_lt(
            name,
            s[j].name,
        )),
{
    bytes::lemma_str_total(name, s[p].name);
    bytes::lemma_str_total(name, s[j].name);
    if j > p {
        assert(comes_before(s[p], s[j].lobe_id, s[j].name));
        if s[p].lobe_id == lobe && s[j].lobe_id == lobe {
            if s[p].name != name {
                bytes::lemma_lex_transitive(
                    vstd::utf8::encode_utf8(name),
                    vstd::utf8::encode_utf8(s[p].name),
                    vstd::utf8::encode_utf8(s[j].name),
                );
            }
            if s[j].name == name {
                if s[p].name == name {
                    bytes::lemma_lex_irreflexive(vstd::utf8::encode_utf8(name));
                } else {
                    bytes::lemma_lex_irreflexive(vstd::utf8::encode_utf8(name));
                }
            }
        }
    }
}

proof fn lemma_put(s: Seq<GhostMetaV>, p: int, g: GhostMetaV, t: Seq<GhostMetaV>)
    requires
        in_order(s),
        is_place(s, g.lobe_id, g.name, p),
        t == if at(s, g.lobe_id, g.name, p) {
            s.update(p, g)
        } else {
            s.insert(p, g)
        },
    ensures
        in_order(t),
        by_name(t) == by_name(s).insert((g.lobe_id, g.name), g),
{
    let lobe = g.lobe_id;
    let name = g.name;
    let replaced = at(s, lobe, name, p);
    assert forall|j: int| p <= j < s.len() implies (at(s, lobe, name, j) ==> j == p) && (!at(
        s,
        lobe,
        name,
        j,
    ) ==> lobe < s[j].lobe_id || (lobe == s[j].lobe_id && bytes::str_lt(name, s[j].name))) by {
        lemma_after_place(s, lobe, name, p, j);
    }
    assert forall|i: int, j: int|
        #![trigger t[i], t[j]]
        0 <= i < j < t.len() implies comes_before(t[i], t[j].lobe_id, t[j].name) by {
        if replaced {
            assert(comes_before(s[i], s[j].lobe_id, s[j].name));
        } else {
            let si = if i < p {
                i
            } else {
                i - 1
            };
            let sj = if j < p {
                j
            } else {
                j - 1
            };
            if i != p && j != p {
                assert(t[i] == s[si] && t[j] == s[sj]);
                assert(comes_before(s[si], s[sj].lobe_id, s[sj].name));
            } else if i == p {
                assert(t[j] == s[j - 1]);
                assert(!at(s, lobe, name, j - 1)) by {
                    if at(s, lobe, name, j - 1) {
                        lemma_after_place(s, lobe, name, p, j - 1);
                    }
                }
            } else {
                assert(t[i] == s[i]);
            }
        }
    }
    let a = by_name(t);
    let b = by_name(s).insert((lobe, name), g);
    assert(at(t, lobe, name, p));
    assert forall|k: (u16, Seq<char>)|
        #![trigger a.dom().contains(k)]
        #![trigger b.dom().contains(k)]
        a.dom().contains(k) == b.dom().contains(k) && (a.dom().contains(k) ==> a[k] == b[k]) by {
        if a.dom().contains(k) {
            let i = choose|i: int| at(t, k.0, k.1, i);
            lemma_at(t, i);
            if k != (lobe, name) {
                let m = if replaced || i < p {
                    i
                } else {
                    i - 1
                };
                assert(i != p);
                assert(t[i] == s[m]);
                assert(at(s, k.0, k.1, m));
                lemma_at(s, m);
            } else {
                lemma_one_spot(t, lobe, name, i, p);
            }
        }
        if b.dom().contains(k) && k != (lobe, name) {
            let i = choose|i: int| at(s, k.0, k.1, i);
            let m = if replaced || i < p {
                i
            } else {
                i + 1
            };
            assert(t[m] == s[i]);
            assert(at(t, k.0, k.1, m));
        }
    }
    assert(a.dom() =~= b.dom());
    assert(a =~= b);
}

proof fn lemma_take_out(s: Seq<GhostMetaV>, p: int, t: Seq<GhostMetaV>)
    requires
        in_order(s),
        0 <= p < s.len(),
        t == s.remove(p),
    ensures
        in_order(t),
        by_name(t) == by_name(s).remove((s[p].lobe_id, s[p].name)),
{
    assert forall|i: int, j: int|
        #![trigger t[i], t[j]]
        0 <= i < j < t.len() implies comes_before(t[i], t[j].lobe_id, t[j].name) by {
        let si = if i < p {
            i
        } else {
            i + 1
        };
        let sj = if j < p {
            j
        } else {
            j + 1
        };
        assert(comes_before(s[si], s[sj].lobe_id, s[sj].name));
    }
    let a = by_name(t);
    let b = by_name(s).remove((s[p].lobe_id, s[p].name));
    assert forall|k: (u16, Seq<char>)|
        #![trigger a.dom().contains(k)]
        #![trigger b.dom().contains(k)]
        a.dom().contains(k) == b.dom().contains(k) && (a.dom().contains(k) ==> a[k] == b[k]) by {
        if a.dom().contains(k) {
            let i = choose|i: int| at(t, k.0, k.1, i);
            let m = if i < p {
                i
            } else {
                i + 1
            };
            assert(t[i] == s[m]);
            assert(at(s, k.0, k.1, m));
            lemma_at(s, m);
            lemma_at(t, i);
            if k == (s[p].lobe_id, s[p].name) {
                lemma_one_spot(s, k.0, k.1, m, p);
            }
        }
        if b.dom().contains(k) {
            let i = choose|i: int| at(s, k.0, k.1, i);
            assert(i != p);
            let m = if i < p {
                i
            } else {
                i - 1
            };
            assert(t[m] == s[i]);
            assert(at(t, k.0, k.1, m));
        }
    }
    assert(a.dom() =~= b.dom());
    assert(a =~= b);
}

/// `x` is what `f` may make of the ghost.
pub open spec fn made_of<R, F: FnOnce(&GhostMeta) -> R>(
    g: Option<GhostMetaV>,
    f: F,
    x: R,
) -> bool {
    exists|m: &GhostMeta| g == Some(m@) && m.wf() && #[trigger] f.ensures((m,), x)
}

/// `after` is what `before` may have become when `f`, applied to the ghost,
/// gave `x`.
pub open spec fn changed_by<R, F: FnOnce(GhostMeta) -> (GhostMeta, R)>(
    g: Option<GhostMetaV>,
    f: F,
    x: R,
    before: Map<(u16, Seq<char>), GhostMetaV>,
    after: Map<(u16, Seq<char>), GhostMetaV>,
) -> bool {
    exists|m: GhostMeta, n: GhostMeta|
        g == Some(m@) && #[trigger] f.ensures((m,), (n, x)) && after == before.insert(
            (n@.lobe_id, n@.name),
            n@,
        )
}

/// The ghosts of all lobes.
pub struct GhostLobeManager {
    /// By lobe, and within a lobe by name.
    ghosts: Vec<GhostMeta>,
    /// The lobe of each name.
    index: SortedMap<u16>,
    /// The lobes that ever had a ghost.
    lobes: Vec<u16>,
    next_id: u16,
    bulk_mode: bool,
    overhead: OverheadTracker,
}

impl GhostLobeManager {
    /// The ghosts in order.
    pub closed spec fn listed(&self) -> Seq<GhostMetaV> {
        metas_view(self.ghosts@)
    }

    /// The ghosts by lobe and name.
    pub open spec fn stored(&self) -> Map<(u16, Seq<char>), GhostMetaV> {
        by_name(self.listed())
    }

    /// The lobe of each name.
    pub closed spec fn names(&self) -> Map<Seq<char>, u16> {
        self.index@
    }

    /// The lobe ever had a ghost.
    pub closed spec fn known(&self, lobe: u16) -> bool {
        self.lobes@.contains(lobe)
    }

    /// The number of the next ghost.
    pub closed spec fn next(&self) -> u16 {
        self.next_id
    }

    /// Aggregates are not kept up to date on writes.
    pub closed spec fn bulk(&self) -> bool {
        self.bulk_mode
    }

    /// What telling the ghosts of writes costs.
    pub closed spec fn hook_cost(&self) -> OverheadTracker {
        self.overhead
    }

    /// The ghosts are in order and well formed, and every name of the index
    /// leads to its ghost.
    pub closed spec fn wf(&self) -> bool {
        &&& in_order(metas_view(self.ghosts@))
        &&& forall|i: int| 0 <= i < self.ghosts@.len() ==> (#[trigger] self.ghosts@[i]).wf()
        &&& forall|i: int|
            0 <= i < self.ghosts@.len() ==> self.lobes@.contains(
                (#[trigger] self.ghosts@[i]).lobe_id,
            )
        &&& forall|n: Seq<char>| #[trigger]
            self.index@.contains_key(n) ==> by_name(metas_view(self.ghosts@)).contains_key(
                (self.index@[n], n),
            )
    }

    /// Every name of the index leads to a ghost of that name in that lobe.
    pub proof fn law_index_leads_to_ghost(&self, name: Seq<char>)
        requires
            self.wf(),
            self.names().contains_key(name),
        ensures
            self.stored().contains_key((self.names()[name], name)),
            self.stored()[(self.names()[name], name)].name == name,
            self.stored()[(self.names()[name], name)].lobe_id == self.names()[name],
    {
        let s = self.listed();
        let i = choose|i: int| at(s, self.names()[name], name, i);
        lemma_at(s, i);
    }

    /// The lobe of every ghost in the index is one that had a ghost.
    pub proof fn law_named_lobe_is_known(&self, name: Seq<char>)
        requires
            self.wf(),
            self.names().contains_key(name),
        ensures
            self.known(self.names()[name]),
    {
        let i = choose|i: int| at(self.listed(), self.names()[name], name, i);
        assert(self.listed()[i] == self.ghosts@[i]@);
    }

    /// The ghosts are in order.
    pub proof fn law_listed_in_order(&self)
        requires
            self.wf(),
        ensures
            in_order(self.listed()),
    {
    }

    /// The ghost of a name, if there is one.
    pub open spec fn named(&self, name: Seq<char>) -> Option<GhostMetaV> {
        if self.names().contains_key(name) {
            Some(self.stored()[(self.names()[name], name)])
        } else {
            None
        }
    }

    /// No ghosts.
    pub fn new() -> (r: Self)
        ensures
            r.wf(),
            r.listed() == Seq::<GhostMetaV>::empty(),
            r.names() == Map::<Seq<char>, u16>::empty(),
            r.next() == 1,
            !r.bulk(),
            r.hook_cost().average() == 0,
            r.hook_cost().sample_count() == 0,
            forall|l: u16| !r.known(l),
    {
        let r = GhostLobeManager {
            ghosts: Vec::new(),
            index: SortedMap::new(),
            lobes: Vec::new(),
            next_id: 1,
            bulk_mode: false,
            overhead: OverheadTracker::new(),
        };
        assert(r.listed() =~= Seq::<GhostMetaV>::empty());
        r
    }

    /// Stops or resumes keeping aggregates up to date on writes.
    pub fn set_bulk_mode(&mut self, on: bool)
        ensures
            final(self).bulk() == on,
            final(self).listed() == old(self).listed(),
            final(self).names() == old(self).names(),
            final(self).next() == old(self).next(),
            final(self).hook_cost() == old(self).hook_cost(),
            forall|l: u16| final(self).known(l) == old(self).known(l),
            old(self).wf() ==> final(self).wf(),
    {
        self.bulk_mode = on;
    }

    /// Whether aggregates are not kept up to date on writes.
    pub fn bulk_mode(&self) -> (r: bool)
        ensures
            r == self.bulk(),
    {
        self.bulk_mode
    }

    /// The number for a new ghost; the numbers wrap around.
    pub fn alloc_id(&mut self) -> (id: u16)
        ensures
            id == old(self).next(),
            final(self).next() == (old(self).next() + 1) % 0x1_0000,
            final(self).listed() == old(self).listed(),
            final(self).names() == old(self).names(),
            final(self).bulk() == old(self).bulk(),
            final(self).hook_cost() == old(self).hook_cost(),
            forall|l: u16| final(self).known(l) == old(self).known(l),
            old(self).wf() ==> final(self).wf(),
    {
        let id: u16 = self.next_id;
        self.next_id = id.wrapping_add(1);
        id
    }

    /// Raises the number of the next ghost to at least `id`.
    pub fn raise_next_id(&mut self, id: u16)
        ensures
            final(self).next() == if old(self).next() < id {
                id
            } else {
                old(self).next()
            },
            final(self).listed() == old(self).listed(),
            final(self).names() == old(self).names(),
            final(self).bulk() == old(self).bulk(),
            final(self).hook_cost() == old(self).hook_cost(),
            forall|l: u16| final(self).known(l) == old(self).known(l),
            old(self).wf() ==> final(self).wf(),
    {
        if self.next_id < id {
            self.next_id = id;
        }
    }

    /// Takes a sample of what telling the ghosts of a write cost.
    pub fn sample_overhead(&mut self, elapsed_ns: u64)
        ensures
            final(self).hook_cost().average() == ghost_meta::next_average(
                old(self).hook_cost().average(),
                old(self).hook_cost().sample_count(),
                elapsed_ns,
            ),
            final(self).hook_cost().sample_count() == (old(self).hook_cost().sample_count() + 1)
                % 0x1_0000_0000_0000_0000,
            final(self).listed() == old(self).listed(),
            final(self).names() == old(self).names(),
            final(self).next() == old(self).next(),
            final(self).bulk() == old(self).bulk(),
            forall|l: u16| final(self).known(l) == old(self).known(l),
            old(self).wf() ==> final(self).wf(),
    {
        self.overhead.update(elapsed_ns);
    }

    /// Whether the lobe ever had a ghost.
    pub fn has_shard(&self, lobe_id: u16) -> (r: bool)
        ensures
            r == self.known(lobe_id),
    {
        let mut i: usize = 0;
        while i < self.lobes.len()
            invariant
                i <= self.lobes@.len(),
                forall|j: int| 0 <= j < i ==> #[trigger] self.lobes@[j] != lobe_id,
            decreases self.lobes@.len() - i,
        {
            if self.lobes[i] == lobe_id {
                assert(self.lobes@[i as int] == lobe_id);
                return true;
            }
            i = i + 1;
        }
        false
    }

    /// Whether there is no ghost.
    pub fn is_empty(&self) -> (r: bool)
        ensures
            r == (self.listed().len() == 0),
    {
        self.ghosts.len() == 0
    }

    /// How many ghosts there are.
    pub fn ghost_count(&self) -> (n: usize)
        ensures
            n == self.listed().len(),
    {
        self.ghosts.len()
    }

    /// Whether a ghost of that name is registered.
    pub fn contains_ghost(&self, name: &str) -> (r: bool)
        ensures
            r == self.names().contains_key(name@),
    {
        self.index.contains_key(name)
    }

    /// The names of the registered ghosts, in order.
    pub fn ghost_names(&self) -> (r: Vec<String>)
        ensures
            forall|n: Seq<char>| text::names(r@).contains(n) <==> #[trigger] self.names().contains_key(
                n,
            ),
            forall|i: int, j: int|
                0 <= i < j < r@.len() ==> bytes::str_lt(
                    (#[trigger] r@[i])@,
                    (#[trigger] r@[j])@,
                ),
    {
        proof {
            use_type_invariant(&self.index);
            self.index.lemma_listed();
        }
        let ghost listed = self.index.listed();
        let mut r: Vec<String> = Vec::new();
        let mut i: usize = 0;
        while i < self.index.len()
            invariant
                i <= listed.len(),
                listed == self.index.listed(),
                r@.len() == i,
                forall|j: int| 0 <= j < i ==> (#[trigger] r@[j])@ == listed[j].0@,
            decreases listed.len() - i,
        {
            r.push(self.index.name_at(i).clone());
            i = i + 1;
        }
        proof {
            assert forall|n: Seq<char>|
                text::names(r@).contains(n) <==> #[trigger] self.names().contains_key(n) by {
                if text::names(r@).contains(n) {
                    let j = choose|j: int| 0 <= j < text::names(r@).len() && text::names(r@)[j] == n;
                    sorted_map::lemma_entry_in_map(listed, j);
                }
                if self.names().contains_key(n) {
                    let j = choose|j: int| sorted_map::holds_at(listed, n, j);
                    assert(text::names(r@)[j] == n);
                }
            }
            assert forall|a: int, b: int| 0 <= a < b < r@.len() implies bytes::str_lt(
                (#[trigger] r@[a])@,
                (#[trigger] r@[b])@,
            ) by {
                assert(bytes::str_lt(listed[a].0@, listed[b].0@));
            }
        }
        r
    }

    /// Where a ghost of that lobe and name is or belongs.
    fn place(&self, lobe_id: u16, name: &str) -> (p: usize)
        ensures
            is_place(self.listed(), lobe_id, name@, p as int),
    {
        let mut p: usize = 0;
        while p < self.ghosts.len()
            invariant
                p <= self.ghosts@.len(),
                forall|j: int|
                    0 <= j < p ==> comes_before(#[trigger] self.listed()[j], lobe_id, name@),
            decreases self.ghosts@.len() - p,
        {
            let g = &self.ghosts[p];
            let before = g.lobe_id < lobe_id || (g.lobe_id == lobe_id && bytes::str_less(
                g.name.as_str(),
                name,
            ));
            assert(self.listed()[p as int] == g@);
            if !before {
                return p;
            }
            p = p + 1;
        }
        p
    }

    /// Where the ghost of that lobe and name is.
    fn find(&self, lobe_id: u16, name: &str) -> (r: Option<usize>)
        requires
            self.wf(),
        ensures
            match r {
                Some(i) => at(self.listed(), lobe_id, name@, i as int) && self.stored().contains_key(
                    (lobe_id, name@),
                ) && self.stored()[(lobe_id, name@)] == self.listed()[i as int],
                None => !self.stored().contains_key((lobe_id, name@)),
            },
    {
        let p: usize = self.place(lobe_id, name);
        let ghost s = self.listed();
        if p < self.ghosts.len() && self.ghosts[p].lobe_id == lobe_id && bytes::str_equal(
            self.ghosts[p].name.as_str(),
            name,
        ) {
            proof {
                assert(s[p as int] == self.ghosts@[p as int]@);
                lemma_at(s, p as int);
            }
            Some(p)
        } else {
            proof {
                if self.stored().contains_key((lobe_id, name@)) {
                    let j = choose|j: int| at(s, lobe_id, name@, j);
                    if j < p {
                        assert(comes_before(s[j], lobe_id, name@));
                        bytes::lemma_lex_irreflexive(vstd::utf8::encode_utf8(name@));
                    } else {
                        lemma_after_place(s, lobe_id, name@, p as int, j);
                        assert(s[p as int] == self.ghosts@[p as int]@);
                    }
                }
            }
            None
        }
    }

    /// Where the ghost of a name is.
    fn find_named(&self, name: &str) -> (r: Option<usize>)
        requires
            self.wf(),
        ensures
            match r {
                Some(i) => self.names().contains_key(name@) && at(
                    self.listed(),
                    self.names()[name@],
                    name@,
                    i as int,
                ) && self.named(name@) == Some(self.listed()[i as int]),
                None => self.named(name@) is None,
            },
    {
        match self.index.get(name) {
            Some(lobe) => self.find(*lobe, name),
            None => None,
        }
    }

    /// What `f` makes of the ghost of a name; `None` where there is none.
    pub fn with_ghost<R, F: FnOnce(&GhostMeta) -> R>(&self, name: &str, f: F) -> (r: Option<R>)
        requires
            self.wf(),
            forall|m: &GhostMeta| #[trigger] f.requires((m,)),
        ensures
            match r {
                Some(x) => made_of(self.named(name@), f, x),
                None => self.named(name@) is None,
            },
    {
        match self.find_named(name) {
            Some(i) => {
                let m = &self.ghosts[i];
                assert(self.listed()[i as int] == m@);
                let x = f(m);
                assert(made_of(self.named(name@), f, x)) by {
                    assert(f.ensures((m,), x));
                }
                Some(x)
            },
            None => None,
        }
    }

    /// Lets `f` change the ghost of a name; `None` where there is none. What
    /// `f` changes stays under its lobe and name.
    pub fn with_ghost_mut<R, F: FnOnce(GhostMeta) -> (GhostMeta, R)>(
        &mut self,
        name: &str,
        f: F,
    ) -> (r: Option<R>)
        requires
            old(self).wf(),
            forall|m: GhostMeta| #[trigger] f.requires((m,)),
            forall|m: GhostMeta, n: GhostMeta, x: R| #[trigger]
                f.ensures((m,), (n, x)) && m.wf() ==> n.wf() && n@.name == m@.name && n@.lobe_id
                    == m@.lobe_id,
        ensures
            final(self).wf(),
            match r {
                Some(x) => changed_by(
                    old(self).named(name@),
                    f,
                    x,
                    old(self).stored(),
                    final(self).stored(),
                ),
                None => old(self).named(name@) is None && final(self).stored() == old(
                    self,
                ).stored(),
            },
            final(self).names() == old(self).names(),
            final(self).next() == old(self).next(),
            final(self).bulk() == old(self).bulk(),
            final(self).hook_cost() == old(self).hook_cost(),
            forall|l: u16| final(self).known(l) == old(self).known(l),
    {
        proof {
            if self.names().contains_key(name@) {
                self.law_index_leads_to_ghost(name@);
                self.law_named_lobe_is_known(name@);
            }
        }
        match self.remove_ghost_entry(name) {
            Some(meta) => {
                let (changed, x) = f(meta);
                let ghost g = changed@;
                self.insert_ghost(changed);
                proof {
                    assert(self.stored() =~= old(self).stored().insert((g.lobe_id, name@), g));
                    assert(self.names() =~= old(self).names());
                    assert(f.ensures((meta,), (changed, x)));
                }
                Some(x)
            },
            None => None,
        }
    }

    /// Inserts a ghost, or replaces the one of its lobe and name.
    pub fn insert_ghost(&mut self, meta: GhostMeta)
        requires
            old(self).wf(),
            meta.wf(),
        ensures
            final(self).wf(),
            final(self).stored() == old(self).stored().insert((meta@.lobe_id, meta@.name), meta@),
            final(self).names() == old(self).names().insert(meta@.name, meta@.lobe_id),
            final(self).next() == old(self).next(),
            final(self).bulk() == old(self).bulk(),
            final(self).hook_cost() == old(self).hook_cost(),
            forall|l: u16|
                final(self).known(l) == (old(self).known(l) || l == meta@.lobe_id),
    {
        let name = meta.name.clone();
        let lobe_id: u16 = meta.lobe_id;
        let ghost g = meta@;
        let ghost s = self.listed();
        let p: usize = self.place(lobe_id, name.as_str());
        if !self.has_shard(lobe_id) {
            let ghost before = self.lobes@;
            self.lobes.push(lobe_id);
            proof {
                assert(self.lobes@[before.len() as int] == lobe_id);
                assert forall|l: u16| self.lobes@.contains(l) == (before.contains(l) || l
                    == lobe_id) by {
                    if before.contains(l) {
                        let k = choose|k: int| 0 <= k < before.len() && before[k] == l;
                        assert(self.lobes@[k] == l);
                    }
                }
            }
        }
        let ghost was = self.ghosts@;
        if p < self.ghosts.len() && self.ghosts[p].lobe_id == lobe_id && bytes::str_equal(
            self.ghosts[p].name.as_str(),
            name.as_str(),
        ) {
            assert(s[p as int] == was[p as int]@);
            self.ghosts[p] = meta;
            assert(self.listed() =~= s.update(p as int, g));
            proof {
                lemma_put(s, p as int, g, self.listed());
            }
        } else {
            proof {
                if p < was.len() {
                    assert(s[p as int] == was[p as int]@);
                }
            }
            self.ghosts.insert(p, meta);
            assert(self.listed() =~= s.insert(p as int, g));
            proof {
                lemma_put(s, p as int, g, self.listed());
            }
        }
        assert forall|i: int| 0 <= i < self.ghosts@.len() implies (#[trigger] self.ghosts@[i]).wf()
            && self.lobes@.contains(self.ghosts@[i].lobe_id) by {
            if i != p {
                assert(was.contains(self.ghosts@[i])) by {
                    if self.ghosts@.len() == was.len() || i < p {
                        assert(was[i] == self.ghosts@[i]);
                    } else {
                        assert(was[i - 1] == self.ghosts@[i]);
                    }
                }
            }
        }
        let ghost before_index = self.index@;
        self.index.insert(name, lobe_id);
        assert forall|n: Seq<char>| #[trigger] self.index@.contains_key(n) implies by_name(
            metas_view(self.ghosts@),
        ).contains_key((self.index@[n], n)) by {
            if n != g.name {
                assert(before_index.contains_key(n));
            }
        }
    }

    /// Takes the ghost of a name out.
    pub fn remove_ghost_entry(&mut self, name: &str) -> (r: Option<GhostMeta>)
        requires
            old(self).wf(),
        ensures
            final(self).wf(),
            match r {
                Some(m) => old(self).named(name@) == Some(m@) && m.wf() && final(self).stored()
                    == old(self).stored().remove((old(self).names()[name@], name@))
                    && final(self).names() == old(self).names().remove(name@),
                None => old(self).named(name@) is None && final(self).listed() == old(
                    self,
                ).listed() && final(self).names() == old(self).names(),
            },
            final(self).next() == old(self).next(),
            final(self).bulk() == old(self).bulk(),
            final(self).hook_cost() == old(self).hook_cost(),
            forall|l: u16| final(self).known(l) == old(self).known(l),
    {
        match self.find_named(name) {
            Some(i) => {
                let ghost s = self.listed();
                let ghost was = self.ghosts@;
                let m = self.ghosts.remove(i);
                assert(self.listed() =~= s.remove(i as int));
                assert(m@ == s[i as int]);
                proof {
                    lemma_take_out(s, i as int, self.listed());
                }
                assert forall|j: int| 0 <= j < self.ghosts@.len() implies (
                #[trigger] self.ghosts@[j]).wf() && self.lobes@.contains(
                    self.ghosts@[j].lobe_id,
                ) by {
                    if j < i {
                        assert(was[j] == self.ghosts@[j]);
                    } else {
                        assert(was[j + 1] == self.ghosts@[j]);
                    }
                }
                self.index.remove(name);
                Some(m)
            },
            None => None,
        }
    }
}

/// How long ago a ghost was used, in microseconds: never negative.
pub open spec fn idle_micros(now: i64, last_accessed: i64) -> int {
    let d = now - last_accessed;
    if d < 0 {
        0
    } else if d > i64::MAX {
        i64::MAX as int
    } else {
        d
    }
}

/// A number of seconds read as a signed number.
pub open spec fn signed_seconds(ttl: u64) -> int {
    if ttl <= i64::MAX {
        ttl as int
    } else {
        ttl - 0x1_0000_0000_0000_0000
    }
}

/// A time to live in microseconds, as far as that fits.
pub open spec fn ttl_micros(ttl: u64) -> int {
    let t = signed_seconds(ttl) * 1_000_000;
    if t > i64::MAX {
        i64::MAX as int
    } else if t < i64::MIN {
        i64::MIN as int
    } else {
        t
    }
}

/// The time to live is over.
pub open spec fn ttl_elapsed(now: i64, last_accessed: i64, ttl: Option<u64>) -> bool {
    ttl matches Some(t) && idle_micros(now, last_accessed) > ttl_micros(t)
}

/// Whether the time to live is over. Without one it never is, and a clock that
/// went backward does not end it.
pub fn is_ttl_elapsed(now: i64, last_accessed: i64, ttl: Option<u64>) -> (r: bool)
    ensures
        r == ttl_elapsed(now, last_accessed, ttl),
{
    match ttl {
        None => false,
        Some(t) => {
            let d: i128 = now as i128 - last_accessed as i128;
            let idle: i128 = if d < 0 {
                0
            } else if d > i64::MAX as i128 {
                i64::MAX as i128
            } else {
                d
            };
            let seconds: i128 = if t <= i64::MAX as u64 {
                t as i128
            } else {
                t as i128 - 0x1_0000_0000_0000_0000
            };
            let m: i128 = seconds * 1_000_000;
            let limit: i128 = if m > i64::MAX as i128 {
                i64::MAX as i128
            } else if m < i64::MIN as i128 {
                i64::MIN as i128
            } else {
                m
            };
            idle > limit
        },
    }
}

/// A ghost with a time to live that fits is over exactly when it was not used
/// for longer than that.
pub proof fn law_ttl_elapsed_means_idle_longer(now: i64, last_accessed: i64, ttl: u64)
    requires
        ttl * 1_000_000 <= i64::MAX,
        now - last_accessed <= i64::MAX,
    ensures
        ttl_elapsed(now, last_accessed, Some(ttl)) <==> now - last_accessed > ttl * 1_000_000,
{
}

/// The ghosts that `keep` selects, in order.
pub open spec fn selected(s: Seq<GhostMetaV>, keep: spec_fn(GhostMetaV) -> bool) -> Seq<GhostMetaV>
    decreases s.len(),
{
    if s.len() == 0 {
        Seq::empty()
    } else {
        let before = selected(s.drop_last(), keep);
        if keep(s.last()) {
            before.push(s.last())
        } else {
            before
        }
    }
}

/// The places of the ghosts that are kept.
pub open spec fn places_of(
    m: Map<(u16, Seq<char>), GhostMetaV>,
    keep: spec_fn(GhostMetaV) -> bool,
) -> Set<(u16, Seq<char>)> {
    m.dom().filter(|k: (u16, Seq<char>)| keep(m[k]))
}

/// To select from a listing is to select from the ghosts by lobe and name.
pub proof fn lemma_selected_places(s: Seq<GhostMetaV>, keep: spec_fn(GhostMetaV) -> bool)
    requires
        in_order(s),
    ensures
        places_of(by_name(s), keep).finite(),
        places_of(by_name(s), keep).len() == selected(s, keep).len(),
    decreases s.len(),
{
    let m = by_name(s);
    if s.len() == 0 {
        assert(places_of(m, keep) =~= Set::empty());
    } else {
        let n = s.len() - 1;
        let k = (s[n].lobe_id, s[n].name);
        let less = m.remove(k);
        lemma_at(s, n);
        assert(s.remove(n) =~= s.drop_last());
        lemma_take_out(s, n, s.drop_last());
        lemma_selected_places(s.drop_last(), keep);
        if keep(s.last()) {
            assert(places_of(m, keep) =~= places_of(less, keep).insert(k));
        } else {
            assert(places_of(m, keep) =~= places_of(less, keep));
        }
    }
}

/// No kept ghost was used before that one, and none before it in the listing as
/// long ago.
spec fn oldest(s: Seq<GhostMetaV>, keep: spec_fn(GhostMetaV) -> bool, i: int) -> bool {
    &&& 0 <= i < s.len()
    &&& keep(s[i])
    &&& forall|j: int|
        #![trigger s[j]]
        0 <= j < s.len() && keep(s[j]) ==> s[i].last_accessed < s[j].last_accessed || (
        s[i].last_accessed == s[j].last_accessed && i <= j)
}

proof fn lemma_oldest(s: Seq<GhostMetaV>, keep: spec_fn(GhostMetaV) -> bool) -> (r: Option<int>)
    ensures
        match r {
            Some(i) => oldest(s, keep, i),
            None => selected(s, keep).len() == 0 && forall|j: int|
                0 <= j < s.len() ==> !keep(#[trigger] s[j]),
        },
    decreases s.len(),
{
    if s.len() == 0 {
        None
    } else {
        let n = s.len() - 1;
        let d = s.drop_last();
        let p = lemma_oldest(d, keep);
        assert(forall|j: int| 0 <= j < n ==> #[trigger] s[j] == d[j]);
        if !keep(s[n]) {
            p
        } else {
            match p {
                None => Some(n),
                Some(i) => if s[n].last_accessed < s[i].last_accessed {
                    Some(n)
                } else {
                    Some(i)
                },
            }
        }
    }
}

/// The ghosts whose time to live is over.
pub open spec fn expired_at(now: i64) -> spec_fn(GhostMetaV) -> bool {
    |g: GhostMetaV| ttl_elapsed(now, g.last_accessed, ghost_meta::ttl_of(g.lifecycle))
}

/// The ghosts of a lobe's name and a class.
pub open spec fn of_type(source_lobe: Seq<char>, ghost_type: GhostType) -> spec_fn(
    GhostMetaV,
) -> bool {
    |g: GhostMetaV| g.source_lobe == source_lobe && ghost_meta::type_of(g.lifecycle) == ghost_type
}

/// The bits of the access bitmap that a promotion asks for: the lowest seven.
pub const SEVEN_DAY_MASK: u32 = 0x7F;

/// The ghost is ephemeral and the lowest seven bits of its access bitmap are set.
pub open spec fn has_low_bits_set(g: GhostMetaV) -> bool {
    g.lifecycle matches GhostLifecycle::Auto { class, telemetry, .. } && class
        == AutoClass::Ephemeral && telemetry.daily_access_bitmap & SEVEN_DAY_MASK == SEVEN_DAY_MASK
}

/// The ghosts that can be promoted.
pub open spec fn promotable() -> spec_fn(GhostMetaV) -> bool {
    |g: GhostMetaV| has_low_bits_set(g)
}

/// The telemetry after a rotation: each bit moves one place down, and the
/// lowest is lost.
pub open spec fn shifted_down(t: AccessTelemetry) -> AccessTelemetry {
    AccessTelemetry { daily_access_bitmap: t.daily_access_bitmap >> 1, ..t }
}

/// The ghost after a rotation.
pub open spec fn rotated(g: GhostMetaV) -> GhostMetaV {
    GhostMetaV {
        lifecycle: match ghost_meta::telemetry_of(g.lifecycle) {
            Some(t) => ghost_meta::lifecycle_of(
                ghost_meta::type_of(g.lifecycle),
                ghost_meta::ttl_of(g.lifecycle),
                shifted_down(t),
            ),
            None => g.lifecycle,
        },
        ..g
    }
}

/// The telemetry after one more use.
pub open spec fn used_once_more(t: AccessTelemetry) -> AccessTelemetry {
    AccessTelemetry {
        daily_access_bitmap: t.daily_access_bitmap | 1,
        access_count_total: if t.access_count_total == u64::MAX {
            u64::MAX
        } else {
            (t.access_count_total + 1) as u64
        },
    }
}

/// The ghost after a use.
pub open spec fn bumped(g: GhostMetaV, now: i64) -> GhostMetaV {
    GhostMetaV {
        last_accessed: now,
        lifecycle: match ghost_meta::telemetry_of(g.lifecycle) {
            Some(t) => ghost_meta::lifecycle_of(
                ghost_meta::type_of(g.lifecycle),
                ghost_meta::ttl_of(g.lifecycle),
                used_once_more(t),
            ),
            None => g.lifecycle,
        },
        ..g
    }
}

/// The time to live of a promoted ghost: thirty days.
pub const PROMOTED_TTL_SECONDS: u64 = 2_592_000;

/// The name of a promoted ghost.
pub open spec fn promoted_name(name: Seq<char>) -> Seq<char> {
    if name.len() >= 5 && name.take(5) == "auto_"@ {
        "promoted_"@ + name.skip(5)
    } else {
        name + "_promoted"@
    }
}

/// The ghost once promoted.
pub open spec fn promoted(g: GhostMetaV) -> GhostMetaV {
    GhostMetaV {
        name: promoted_name(g.name),
        lifecycle: match g.lifecycle {
            GhostLifecycle::Auto { telemetry, .. } => GhostLifecycle::Auto {
                class: AutoClass::Promoted,
                ttl_seconds: PROMOTED_TTL_SECONDS,
                telemetry,
            },
            GhostLifecycle::Declared => GhostLifecycle::Declared,
        },
        ..g
    }
}

/// The name of a promoted ghost.
fn make_promoted_name(name: &str) -> (r: String)
    ensures
        r@ == promoted_name(name@),
{
    proof {
        reveal_strlit("auto_");
    }
    let chars = text::chars_of(name);
    if chars.len() >= 5 && bytes::str_equal(text::text_of(&chars, 0, 5).as_str(), "auto_") {
        assert(name@.subrange(0, 5) =~= name@.take(5));
        let rest = text::text_of(&chars, 5, chars.len());
        assert(name@.subrange(5, name@.len() as int) =~= name@.skip(5));
        text::join2("promoted_", rest.as_str())
    } else {
        proof {
            if chars@.len() >= 5 {
                assert(name@.subrange(0, 5) =~= name@.take(5));
            }
        }
        text::join2(name, "_promoted")
    }
}

/// A line of the list of ghosts.
pub struct GhostInfo {
    pub name: String,
    pub source_lobe: String,
    pub order_by: String,
    pub record_count: u64,
    pub filter_count: usize,
    /// The aggregates may be stale.
    pub aggregates_stale: bool,
    /// Keeping the ghost up to date failed.
    pub maintenance_degraded: bool,
    /// The label and direction of the order by metric.
    pub metric_order: Option<(String, bool)>,
    /// How long ago the order by metric was written out, in seconds; `None`
    /// without an order or while it is stale.
    pub order_age_secs: Option<i64>,
}

/// What a [`GhostInfo`] says.
pub struct GhostInfoV {
    pub name: Seq<char>,
    pub source_lobe: Seq<char>,
    pub order_by: Seq<char>,
    pub record_count: u64,
    pub filter_count: usize,
    pub aggregates_stale: bool,
    pub maintenance_degraded: bool,
    pub metric_order: Option<(Seq<char>, bool)>,
    pub order_age_secs: Option<i64>,
}

impl View for GhostInfo {
    type V = GhostInfoV;

    open spec fn view(&self) -> GhostInfoV {
        GhostInfoV {
            name: self.name@,
            source_lobe: self.source_lobe@,
            order_by: self.order_by@,
            record_count: self.record_count,
            filter_count: self.filter_count,
            aggregates_stale: self.aggregates_stale,
            maintenance_degraded: self.maintenance_degraded,
            metric_order: match self.metric_order {
                Some((l, d)) => Some((l@, d)),
                None => None,
            },
            order_age_secs: self.order_age_secs,
        }
    }
}

/// The whole seconds between two times, toward zero, as far as they fit.
pub open spec fn age_seconds(now: i64, ts: i64) -> i64 {
    let d = now - ts;
    if d >= 0 {
        (d / 1_000_000) as i64
    } else {
        (-((-d) / 1_000_000)) as i64
    }
}

/// The line of a ghost.
pub open spec fn info_of(g: GhostMetaV, now: i64) -> GhostInfoV {
    GhostInfoV {
        name: g.name,
        source_lobe: g.source_lobe,
        order_by: g.order_by_field,
        record_count: g.index_count,
        filter_count: ghost_meta::at_most_max(ghost_meta::condition_count(g.filter)),
        aggregates_stale: g.stale(),
        maintenance_degraded: g.maintenance_degraded,
        metric_order: match g.metric_order {
            Some(o) => Some((o.label, o.descending)),
            None => None,
        },
        order_age_secs: match g.order_emitted_at {
            Some(ts) => Some(age_seconds(now, ts)),
            None => None,
        },
    }
}

fn seconds_since(now: i64, ts: i64) -> (r: i64)
    ensures
        r == age_seconds(now, ts),
{
    let d: i128 = now as i128 - ts as i128;
    if d >= 0 {
        (d / 1_000_000) as i64
    } else {
        (-((-d) / 1_000_000)) as i64
    }
}

impl GhostMeta {
    /// The line of the ghost.
    fn info(&self, now: i64) -> (r: GhostInfo)
        ensures
            r@ == info_of(self@, now),
    {
        GhostInfo {
            name: self.name.clone(),
            source_lobe: self.source_lobe.clone(),
            order_by: self.order_by_field.clone(),
            record_count: self.index_count,
            filter_count: ghost_meta::filter_expr_condition_count(&self.filter),
            aggregates_stale: self.aggregates_dirty(),
            maintenance_degraded: self.maintenance_degraded,
            metric_order: match &self.metric_order {
                Some(o) => Some((o.label.clone(), o.descending)),
                None => None,
            },
            order_age_secs: match self.order_emitted_at {
                Some(ts) => Some(seconds_since(now, ts)),
                None => None,
            },
        }
    }
}

impl GhostLobeManager {
    /// The ghosts whose time to live is over, in order.
    pub fn identify_expired_ghosts(&self, now: i64) -> (r: Vec<ExpiredGhost>)
        ensures
            r@.len() == selected(self.listed(), expired_at(now)).len(),
            forall|i: int|
                0 <= i < r@.len() ==> (#[trigger] r@[i]).name@ == selected(
                    self.listed(),
                    expired_at(now),
                )[i].name && r@[i].lobe_id == selected(self.listed(), expired_at(now))[i].lobe_id,
    {
        let ghost s = self.listed();
        let mut r: Vec<ExpiredGhost> = Vec::new();
        let mut i: usize = 0;
        assert(s.take(0) =~= Seq::<GhostMetaV>::empty());
        while i < self.ghosts.len()
            invariant
                i <= self.ghosts@.len(),
                s == self.listed(),
                r@.len() == selected(s.take(i as int), expired_at(now)).len(),
                forall|k: int|
                    0 <= k < r@.len() ==> (#[trigger] r@[k]).name@ == selected(
                        s.take(i as int),
                        expired_at(now),
                    )[k].name && r@[k].lobe_id == selected(
                        s.take(i as int),
                        expired_at(now),
                    )[k].lobe_id,
            decreases self.ghosts@.len() - i,
        {
            let g = &self.ghosts[i];
            assert(s[i as int] == g@);
            assert(s.take(i + 1).drop_last() =~= s.take(i as int));
            if is_ttl_elapsed(now, g.last_accessed, g.ttl_seconds()) {
                r.push(ExpiredGhost { name: g.name.clone(), lobe_id: g.lobe_id });
            }
            i = i + 1;
        }
        assert(s.take(i as int) =~= s);
        r
    }

    /// How many ghosts of a lobe's name have the class.
    pub fn count_by_type(&self, source_lobe: &str, ghost_type: GhostType) -> (n: usize)
        ensures
            n == selected(self.listed(), of_type(source_lobe@, ghost_type)).len(),
    {
        let ghost s = self.listed();
        let mut n: usize = 0;
        let mut i: usize = 0;
        assert(s.take(0) =~= Seq::<GhostMetaV>::empty());
        while i < self.ghosts.len()
            invariant
                i <= self.ghosts@.len(),
                n <= i,
                s == self.listed(),
                n == selected(s.take(i as int), of_type(source_lobe@, ghost_type)).len(),
            decreases self.ghosts@.len() - i,
        {
            let g = &self.ghosts[i];
            assert(s[i as int] == g@);
            assert(s.take(i + 1).drop_last() =~= s.take(i as int));
            if bytes::str_equal(g.source_lobe.as_str(), source_lobe) && g.ghost_type()
                == ghost_type {
                n = n + 1;
            }
            i = i + 1;
        }
        assert(s.take(i as int) =~= s);
        n
    }

    /// `i` is the first of the ghosts of that name and class that were not used
    /// for longest.
    pub open spec fn is_lru(&self, source_lobe: Seq<char>, ghost_type: GhostType, i: int) -> bool {
        let s = self.listed();
        let keep = of_type(source_lobe, ghost_type);
        &&& 0 <= i < s.len()
        &&& keep(s[i])
        &&& forall|j: int|
            #![trigger s[j]]
            0 <= j < s.len() && keep(s[j]) ==> s[i].last_accessed < s[j].last_accessed || (
            s[i].last_accessed == s[j].last_accessed && i <= j)
    }

    /// Where there are ghosts of a class, one of them is the least recently used.
    pub proof fn lemma_lru_exists(&self, source_lobe: Seq<char>, ghost_type: GhostType)
        requires
            selected(self.listed(), of_type(source_lobe, ghost_type)).len() > 0,
        ensures
            exists|i: int| #[trigger] self.is_lru(source_lobe, ghost_type, i),
    {
        let keep = of_type(source_lobe, ghost_type);
        let r = lemma_oldest(self.listed(), keep);
        assert(oldest(self.listed(), keep, r->Some_0));
        assert(self.is_lru(source_lobe, ghost_type, r->Some_0));
    }

    /// Where the least recently used ghost of that name and class is.
    fn find_lru(&self, source_lobe: &str, ghost_type: GhostType) -> (r: Option<usize>)
        ensures
            match r {
                Some(i) => self.is_lru(source_lobe@, ghost_type, i as int),
                None => forall|j: int|
                    0 <= j < self.listed().len() ==> !of_type(source_lobe@, ghost_type)(
                        #[trigger] self.listed()[j],
                    ),
            },
    {
        let ghost s = self.listed();
        let ghost keep = of_type(source_lobe@, ghost_type);
        let mut best: Option<usize> = None;
        let mut i: usize = 0;
        while i < self.ghosts.len()
            invariant
                i <= self.ghosts@.len(),
                s == self.listed(),
                keep == of_type(source_lobe@, ghost_type),
                match best {
                    Some(b) => b < i && keep(s[b as int]) && forall|j: int|
                        #![trigger s[j]]
                        0 <= j < i && keep(s[j]) ==> s[b as int].last_accessed
                            < s[j].last_accessed || (s[b as int].last_accessed
                            == s[j].last_accessed && b <= j),
                    None => forall|j: int| 0 <= j < i ==> !keep(#[trigger] s[j]),
                },
            decreases self.ghosts@.len() - i,
        {
            let g = &self.ghosts[i];
            assert(s[i as int] == g@);
            if bytes::str_equal(g.source_lobe.as_str(), source_lobe) && g.ghost_type()
                == ghost_type {
                let better = match best {
                    Some(b) => {
                        assert(s[b as int] == self.ghosts@[b as int]@);
                        g.last_accessed < self.ghosts[b].last_accessed
                    },
                    None => true,
                };
                if better {
                    best = Some(i);
                }
            }
            i = i + 1;
        }
        best
    }

    /// The least recently used ghost of that name and class; among equally old
    /// ones the first in order.
    pub fn identify_lru(&self, source_lobe: &str, ghost_type: GhostType) -> (r: Option<String>)
        ensures
            match r {
                Some(n) => exists|i: int| #[trigger]
                    self.is_lru(source_lobe@, ghost_type, i) && n@ == self.listed()[i].name,
                None => forall|j: int|
                    0 <= j < self.listed().len() ==> !of_type(source_lobe@, ghost_type)(
                        #[trigger] self.listed()[j],
                    ),
            },
    {
        match self.find_lru(source_lobe, ghost_type) {
            Some(i) => {
                let n = self.ghosts[i].name.clone();
                assert(self.listed()[i as int] == self.ghosts@[i as int]@);
                assert(self.is_lru(source_lobe@, ghost_type, i as int));
                Some(n)
            },
            None => None,
        }
    }

    /// Moves the access bits of every ghost one place down, once a day.
    pub fn rotate_bitmaps_if_needed(&mut self, current_day_bucket: i64, last_rotation: &mut i64)
        requires
            old(self).wf(),
        ensures
            final(self).wf(),
            *final(last_rotation) == current_day_bucket,
            final(self).listed() == if current_day_bucket == *old(last_rotation) {
                old(self).listed()
            } else {
                old(self).listed().map_values(|g: GhostMetaV| rotated(g))
            },
            final(self).names() == old(self).names(),
            final(self).next() == old(self).next(),
            final(self).bulk() == old(self).bulk(),
            final(self).hook_cost() == old(self).hook_cost(),
            forall|l: u16| final(self).known(l) == old(self).known(l),
    {
        if current_day_bucket == *last_rotation {
            return;
        }
        let ghost s = self.listed();
        let ghost was = self.ghosts@;
        let ghost start = *self;
        let mut i: usize = 0;
        while i < self.ghosts.len()
            invariant
                i <= self.ghosts@.len(),
                self.ghosts@.len() == was.len(),
                s == metas_view(was),
                self.index == start.index,
                self.lobes == start.lobes,
                self.next_id == start.next_id,
                self.bulk_mode == start.bulk_mode,
                self.overhead == start.overhead,
                forall|j: int| 0 <= j < was.len() ==> (#[trigger] was[j]).wf(),
                forall|j: int| i <= j < was.len() ==> #[trigger] self.ghosts@[j] == was[j],
                forall|j: int|
                    0 <= j < i ==> (#[trigger] self.ghosts@[j])@ == rotated(s[j])
                        && self.ghosts@[j].wf(),
            decreases was.len() - i,
        {
            let ghost before = self.ghosts@;
            assert(before[i as int] == was[i as int]);
            let l = self.ghosts[i].lifecycle;
            if let GhostLifecycle::Auto { class, ttl_seconds, telemetry } = l {
                let bitmap: u32 = telemetry.daily_access_bitmap >> 1;
                self.ghosts[i].lifecycle = GhostLifecycle::Auto {
                    class,
                    ttl_seconds,
                    telemetry: AccessTelemetry {
                        daily_access_bitmap: bitmap,
                        access_count_total: telemetry.access_count_total,
                    },
                };
            }
            assert(s[i as int] == was[i as int]@);
            assert(self.ghosts@[i as int]@ == rotated(s[i as int]));
            i = i + 1;
        }
        *last_rotation = current_day_bucket;
        proof {
            let t = self.listed();
            assert(t =~= s.map_values(|g: GhostMetaV| rotated(g)));
            lemma_same_names(s, t);
            assert forall|j: int| 0 <= j < self.ghosts@.len() implies self.lobes@.contains(
                (#[trigger] self.ghosts@[j]).lobe_id,
            ) by {
                assert(t[j].lobe_id == s[j].lobe_id);
                assert(s[j] == was[j]@);
                assert(start.lobes@.contains(was[j].lobe_id));
            }
        }
    }

    /// The ephemeral ghosts whose lowest seven access bits are set, in order.
    pub fn identify_promotable(&self) -> (r: Vec<String>)
        ensures
            r@.len() == selected(self.listed(), promotable()).len(),
            forall|i: int|
                0 <= i < r@.len() ==> (#[trigger] r@[i])@ == selected(
                    self.listed(),
                    promotable(),
                )[i].name,
    {
        let ghost s = self.listed();
        let mut r: Vec<String> = Vec::new();
        let mut i: usize = 0;
        assert(s.take(0) =~= Seq::<GhostMetaV>::empty());
        while i < self.ghosts.len()
            invariant
                i <= self.ghosts@.len(),
                s == self.listed(),
                r@.len() == selected(s.take(i as int), promotable()).len(),
                forall|k: int|
                    0 <= k < r@.len() ==> (#[trigger] r@[k])@ == selected(
                        s.take(i as int),
                        promotable(),
                    )[k].name,
            decreases self.ghosts@.len() - i,
        {
            let g = &self.ghosts[i];
            assert(s[i as int] == g@);
            assert(s.take(i + 1).drop_last() =~= s.take(i as int));
            let keep = match &g.lifecycle {
                GhostLifecycle::Auto { class, telemetry, .. } => match class {
                    AutoClass::Ephemeral => telemetry.daily_access_bitmap & SEVEN_DAY_MASK
                        == SEVEN_DAY_MASK,
                    AutoClass::Promoted => false,
                },
                GhostLifecycle::Declared => false,
            };
            assert(keep == has_low_bits_set(g@));
            if keep {
                r.push(g.name.clone());
            }
            i = i + 1;
        }
        assert(s.take(i as int) =~= s);
        r
    }

    /// Promotes an ephemeral ghost in place: it gets a new name and a longer
    /// time to live, and keeps its number, its entries and its telemetry.
    /// `persist` gets the promoted ghost first. Returns the promoted ghost's
    /// name; an error, be it of `persist`, leaves every ghost under its name as
    /// it was.
    pub fn promote_ghost<F: FnOnce(&GhostMeta) -> Result<(), XyzError>>(
        &mut self,
        old_name: &str,
        persist: F,
    ) -> (r: Result<String, XyzError>)
        requires
            old(self).wf(),
            forall|m: &GhostMeta| #[trigger] persist.requires((m,)),
        ensures
            final(self).wf(),
            match old(self).named(old_name@) {
                None => r matches Err(XyzError::InvalidQuery(m)) && m@ == "promote_ghost: '"@
                    + old_name@ + "' not found"@,
                Some(g) => if ghost_meta::type_of(g.lifecycle) == GhostType::Ephemeral {
                    match r {
                        Ok(n) => {
                            &&& made_of(Some(promoted(g)), persist, Ok(()))
                            &&& n@ == promoted_name(old_name@)
                            &&& final(self).stored() == old(self).stored().remove(
                                (g.lobe_id, old_name@),
                            ).insert((g.lobe_id, promoted_name(old_name@)), promoted(g))
                            &&& final(self).names() == old(self).names().remove(
                                old_name@,
                            ).insert(promoted_name(old_name@), g.lobe_id)
                        },
                        Err(e) => made_of(Some(promoted(g)), persist, Err(e)),
                    }
                } else {
                    r matches Err(XyzError::InvalidQuery(m)) && m@ == "promote_ghost: '"@
                        + old_name@ + "' is not Ephemeral"@
                },
            },
            r is Err ==> final(self).stored() == old(self).stored() && final(self).names() == old(
                self,
            ).names(),
            final(self).next() == old(self).next(),
            final(self).bulk() == old(self).bulk(),
            final(self).hook_cost() == old(self).hook_cost(),
            forall|l: u16| final(self).known(l) == old(self).known(l),
    {
        proof {
            if self.names().contains_key(old_name@) {
                self.law_index_leads_to_ghost(old_name@);
                self.law_named_lobe_is_known(old_name@);
            }
        }
        let found = match self.find_named(old_name) {
            Some(i) => {
                assert(self.listed()[i as int] == self.ghosts@[i as int]@);
                Some(self.ghosts[i].ghost_type())
            },
            None => None,
        };
        match found {
            None => Err(
                XyzError::InvalidQuery(text::join3("promote_ghost: '", old_name, "' not found")),
            ),
            Some(t) => {
                if t != GhostType::Ephemeral {
                    return Err(
                        XyzError::InvalidQuery(
                            text::join3("promote_ghost: '", old_name, "' is not Ephemeral"),
                        ),
                    );
                }
                let new_name = make_promoted_name(old_name);
                match self.remove_ghost_entry(old_name) {
                    Some(meta) => {
                        let mut meta = meta;
                        let ghost g = meta@;
                        let mut name = new_name.clone();
                        std::mem::swap(&mut name, &mut meta.name);
                        let lifecycle = meta.lifecycle;
                        if let GhostLifecycle::Auto { telemetry, .. } = lifecycle {
                            meta.lifecycle = GhostLifecycle::Auto {
                                class: AutoClass::Promoted,
                                ttl_seconds: PROMOTED_TTL_SECONDS,
                                telemetry,
                            };
                        }
                        assert(meta@ == promoted(g));
                        let persisted = persist(&meta);
                        assert(made_of(Some(promoted(g)), persist, persisted)) by {
                            assert(persist.ensures((&meta,), persisted));
                        }
                        match persisted {
                            Ok(u) => {
                                assert(u == ());
                                self.insert_ghost(meta);
                                Ok(new_name)
                            },
                            Err(e) => {
                                meta.name = name;
                                meta.lifecycle = lifecycle;
                                assert(meta@ == g);
                                self.insert_ghost(meta);
                                assert(self.stored() =~= old(self).stored());
                                assert(self.names() =~= old(self).names());
                                Err(e)
                            },
                        }
                    },
                    None => Err(
                        XyzError::InvalidQuery(
                            text::join3("promote_ghost: '", old_name, "' not found"),
                        ),
                    ),
                }
            },
        }
    }

    /// Records a use of a ghost; one that is gone is passed over.
    pub fn bump_access(&mut self, name: &str, now: i64)
        requires
            old(self).wf(),
        ensures
            final(self).wf(),
            final(self).stored() == match old(self).named(name@) {
                Some(g) => old(self).stored().insert((g.lobe_id, name@), bumped(g, now)),
                None => old(self).stored(),
            },
            final(self).names() == old(self).names(),
            final(self).next() == old(self).next(),
            final(self).bulk() == old(self).bulk(),
            final(self).hook_cost() == old(self).hook_cost(),
            forall|l: u16| final(self).known(l) == old(self).known(l),
    {
        proof {
            if self.names().contains_key(name@) {
                self.law_index_leads_to_ghost(name@);
                self.law_named_lobe_is_known(name@);
            }
        }
        if let Some(meta) = self.remove_ghost_entry(name) {
            let mut meta = meta;
            let ghost g = meta@;
            meta.last_accessed = now;
            if let GhostLifecycle::Auto { class, ttl_seconds, telemetry } = meta.lifecycle {
                let bitmap: u32 = telemetry.daily_access_bitmap | 1;
                meta.lifecycle = GhostLifecycle::Auto {
                    class,
                    ttl_seconds,
                    telemetry: AccessTelemetry {
                        daily_access_bitmap: bitmap,
                        access_count_total: telemetry.access_count_total.saturating_add(1),
                    },
                };
            }
            assert(meta@ == bumped(g, now));
            self.insert_ghost(meta);
            assert(self.stored() =~= old(self).stored().insert((g.lobe_id, name@), bumped(g, now)));
            assert(self.names() =~= old(self).names());
        }
    }

    /// Sets class and time to live of a ghost and says whether there is one to
    /// be persisted; one that is gone is passed over.
    pub fn reclassify_lifecycle(
        &mut self,
        name: &str,
        ghost_type: GhostType,
        ttl_seconds: Option<u64>,
    ) -> (r: bool)
        requires
            old(self).wf(),
        ensures
            final(self).wf(),
            r == (old(self).named(name@) is Some),
            final(self).stored() == match old(self).named(name@) {
                Some(g) => old(self).stored().insert(
                    (g.lobe_id, name@),
                    (GhostMetaV {
                        lifecycle: ghost_meta::lifecycle_of(
                            ghost_type,
                            ttl_seconds,
                            match ghost_meta::telemetry_of(g.lifecycle) {
                                Some(t) => t,
                                None => ghost_meta::no_access(),
                            },
                        ),
                        ..g
                    }),
                ),
                None => old(self).stored(),
            },
            final(self).names() == old(self).names(),
            final(self).next() == old(self).next(),
            final(self).bulk() == old(self).bulk(),
            final(self).hook_cost() == old(self).hook_cost(),
            forall|l: u16| final(self).known(l) == old(self).known(l),
    {
        proof {
            if self.names().contains_key(name@) {
                self.law_index_leads_to_ghost(name@);
                self.law_named_lobe_is_known(name@);
            }
        }
        match self.remove_ghost_entry(name) {
            Some(meta) => {
                let mut meta = meta;
                let ghost g = meta@;
                meta.set_lifecycle(ghost_type, ttl_seconds);
                let ghost h = meta@;
                self.insert_ghost(meta);
                assert(self.stored() =~= old(self).stored().insert((g.lobe_id, name@), h));
                assert(self.names() =~= old(self).names());
                true
            },
            None => false,
        }
    }

    /// Takes a ghost out of the store and gives its number, under which its
    /// entries, rollups and metadata are to be purged.
    pub fn drop_ghost(&mut self, name: &str) -> (r: Result<(u16, String), XyzError>)
        requires
            old(self).wf(),
        ensures
            final(self).wf(),
            match old(self).named(name@) {
                Some(g) => {
                    &&& r matches Ok((id, m)) && id == g.ghost_id && m@ == "Ghost '"@ + name@
                        + "' dropped"@
                    &&& final(self).stored() == old(self).stored().remove((g.lobe_id, name@))
                    &&& final(self).names() == old(self).names().remove(name@)
                },
                None => {
                    &&& r matches Err(XyzError::GhostNotFound(n)) && n@ == name@
                    &&& final(self).stored() == old(self).stored()
                    &&& final(self).names() == old(self).names()
                },
            },
            final(self).next() == old(self).next(),
            final(self).bulk() == old(self).bulk(),
            final(self).hook_cost() == old(self).hook_cost(),
            forall|l: u16| final(self).known(l) == old(self).known(l),
    {
        proof {
            if self.names().contains_key(name@) {
                self.law_index_leads_to_ghost(name@);
                self.law_named_lobe_is_known(name@);
            }
        }
        match self.remove_ghost_entry(name) {
            Some(m) => Ok((m.ghost_id, text::join3("Ghost '", name, "' dropped"))),
            None => Err(XyzError::GhostNotFound(name.to_owned())),
        }
    }

    /// The list of ghosts, in order.
    pub fn list(&self, now: i64) -> (r: Vec<GhostInfo>)
        ensures
            r@.len() == self.listed().len(),
            forall|i: int|
                0 <= i < r@.len() ==> (#[trigger] r@[i])@ == info_of(self.listed()[i], now),
    {
        let mut r: Vec<GhostInfo> = Vec::new();
        let mut i: usize = 0;
        while i < self.ghosts.len()
            invariant
                i <= self.ghosts@.len(),
                r@.len() == i,
                forall|j: int|
                    0 <= j < i ==> (#[trigger] r@[j])@ == info_of(self.listed()[j], now),
            decreases self.ghosts@.len() - i,
        {
            r.push(self.ghosts[i].info(now));
            assert(self.listed()[i as int] == self.ghosts@[i as int]@);
            i = i + 1;
        }
        r
    }

    /// The membership predicate of a ghost.
    pub fn get_filter(&self, name: &str) -> (r: Result<FilterExpr, XyzError>)
        requires
            self.wf(),
        ensures
            match self.named(name@) {
                Some(g) => r matches Ok(f) && f@ == g.filter,
                None => r matches Err(XyzError::GhostNotFound(n)) && n@ == name@,
            },
    {
        match self.find_named(name) {
            Some(i) => {
                assert(self.listed()[i as int] == self.ghosts@[i as int]@);
                Ok(self.ghosts[i].filter.clone_expr())
            },
            None => Err(XyzError::GhostNotFound(name.to_owned())),
        }
    }

    /// The number of a ghost.
    pub fn ghost_id(&self, name: &str) -> (r: Option<u16>)
        requires
            self.wf(),
        ensures
            r == match self.named(name@) {
                Some(g) => Some(g.ghost_id),
                None => None,
            },
    {
        match self.find_named(name) {
            Some(i) => {
                assert(self.listed()[i as int] == self.ghosts@[i as int]@);
                Some(self.ghosts[i].ghost_id)
            },
            None => None,
        }
    }
}

/// Ghosts with the same lobes and names have the same places.
proof fn lemma_same_names(s: Seq<GhostMetaV>, t: Seq<GhostMetaV>)
    requires
        in_order(s),
        s.len() == t.len(),
        forall|i: int|
            0 <= i < s.len() ==> (#[trigger] t[i]).lobe_id == s[i].lobe_id && t[i].name
                == s[i].name,
    ensures
        in_order(t),
        by_name(t).dom() == by_name(s).dom(),
{
    assert forall|i: int, j: int|
        #![trigger t[i], t[j]]
        0 <= i < j < t.len() implies comes_before(t[i], t[j].lobe_id, t[j].name) by {
        assert(comes_before(s[i], s[j].lobe_id, s[j].name));
    }
    assert forall|k: (u16, Seq<char>)|
        #![trigger by_name(t).dom().contains(k)]
        #![trigger by_name(s).dom().contains(k)]
        by_name(t).dom().contains(k) == by_name(s).dom().contains(k) by {
        if by_name(t).dom().contains(k) {
            let i = choose|i: int| at(t, k.0, k.1, i);
            assert(at(s, k.0, k.1, i));
        }
        if by_name(s).dom().contains(k) {
            let i = choose|i: int| at(s, k.0, k.1, i);
            assert(at(t, k.0, k.1, i));
        }
    }
    assert(by_name(t).dom() =~= by_name(s).dom());
}

/// A use sets the lowest bit, and a second use before a rotation changes no bit.
pub proof fn law_use_sets_lowest_bit(t: AccessTelemetry)
    ensures
        used_once_more(t).daily_access_bitmap & 1 == 1,
        used_once_more(used_once_more(t)).daily_access_bitmap == used_once_more(
            t,
        ).daily_access_bitmap,
{
    let b = t.daily_access_bitmap;
    assert((b | 1) & 1 == 1) by (bit_vector);
    assert((b | 1) | 1 == b | 1) by (bit_vector);
}

/// A promoted ghost keeps its number, under which its entries lie, and all that it
/// indexes; it is not promoted again.
pub proof fn law_promotion_is_final(g: GhostMetaV)
    requires
        ghost_meta::type_of(g.lifecycle) == GhostType::Ephemeral,
    ensures
        promoted(g).ghost_id == g.ghost_id,
        promoted(g).lobe_id == g.lobe_id,
        promoted(g).filter == g.filter,
        promoted(g).aggregate == g.aggregate,
        ghost_meta::type_of(promoted(g).lifecycle) == GhostType::Promoted,
        ghost_meta::telemetry_of(promoted(g).lifecycle) == ghost_meta::telemetry_of(g.lifecycle),
        !promotable()(promoted(g)),
{
}

// ---------------------------------------------------------------------------
// Memory of the aggregates
// ---------------------------------------------------------------------------
/// What a map of groups costs for each entry besides key and state.
pub const MAP_ENTRY_OVERHEAD: u64 = 32;

/// `estimate` accepts every state and depends on what it stands for alone.
pub open spec fn estimates<E: Fn(&AggregateState) -> usize>(estimate: E) -> bool {
    &&& forall|s: &AggregateState| #[trigger] estimate.requires((s,))
    &&& forall|s: &AggregateState, t: &AggregateState, a: usize, b: usize|
        #![trigger estimate.ensures((s,), a), estimate.ensures((t,), b)]
        estimate.ensures((s,), a) && estimate.ensures((t,), b) && s@ == t@ ==> a == b
}

/// `n` may be the estimate for the state.
pub open spec fn may_estimate<E: Fn(&AggregateState) -> usize>(
    estimate: E,
    v: AggregateStateV,
    n: usize,
) -> bool {
    exists|s: &AggregateState| s@ == v && #[trigger] estimate.ensures((s,), n)
}

/// The estimate for a state.
pub open spec fn estimate_of<E: Fn(&AggregateState) -> usize>(
    estimate: E,
    v: AggregateStateV,
) -> usize {
    choose|n: usize| may_estimate(estimate, v, n)
}

/// What one group costs.
pub open spec fn group_bytes<E: Fn(&AggregateState) -> usize>(
    estimate: E,
    key: Seq<char>,
    v: AggregateStateV,
) -> nat {
    MAP_ENTRY_OVERHEAD as nat + vstd::layout::size_of_as_usize::<String>() as nat
        + vstd::utf8::encode_utf8(key).len() + estimate_of(estimate, v) as nat
}

/// What the groups cost together.
pub open spec fn groups_bytes<E: Fn(&AggregateState) -> usize>(
    estimate: E,
    m: Map<Seq<char>, AggregateStateV>,
) -> nat
    decreases m.dom().len(),
{
    if !m.dom().finite() || m.dom().len() == 0 {
        0
    } else {
        let k = m.dom().choose();
        group_bytes(estimate, k, m[k]) + groups_bytes(estimate, m.remove(k))
    }
}

/// What the aggregates of a ghost cost: the one over all members and those of
/// the groups in memory.
pub open spec fn aggregate_bytes<E: Fn(&AggregateState) -> usize>(
    estimate: E,
    g: GhostMetaV,
) -> nat {
    match g.aggregate {
        Some(a) => estimate_of(estimate, a.global) as nat + match a.residency {
            ResidencyV::InRam(m) => groups_bytes(estimate, m),
            ResidencyV::Spilled => 0,
        },
        None => 0,
    }
}

/// What the aggregates of the ghosts cost together.
pub open spec fn all_aggregate_bytes<E: Fn(&AggregateState) -> usize>(
    estimate: E,
    s: Seq<GhostMetaV>,
) -> nat
    decreases s.len(),
{
    if s.len() == 0 {
        0
    } else {
        all_aggregate_bytes(estimate, s.drop_last()) + aggregate_bytes(estimate, s.last())
    }
}

/// The number, or the largest one that fits.
pub open spec fn at_most_u64(n: nat) -> u64 {
    if n <= u64::MAX {
        n as u64
    } else {
        u64::MAX
    }
}

proof fn lemma_groups_bytes<E: Fn(&AggregateState) -> usize>(
    estimate: E,
    m: Map<Seq<char>, AggregateStateV>,
    k: Seq<char>,
)
    requires
        m.dom().finite(),
        m.contains_key(k),
    ensures
        groups_bytes(estimate, m) == group_bytes(estimate, k, m[k]) + groups_bytes(
            estimate,
            m.remove(k),
        ),
    decreases m.dom().len(),
{
    assert(m.dom().len() > 0) by {
        if m.dom().len() == 0 {
            assert(m.dom() =~= Set::<Seq<char>>::empty());
        }
    }
    let c = m.dom().choose();
    assert(m.dom().contains(c));
    if c != k {
        assert(m.remove(c).dom() =~= m.dom().remove(c));
        assert(m.remove(k).dom() =~= m.dom().remove(k));
        lemma_groups_bytes(estimate, m.remove(c), k);
        lemma_groups_bytes(estimate, m.remove(k), c);
        assert(m.remove(c).remove(k) =~= m.remove(k).remove(c));
    }
}

/// The estimate for a state.
fn estimate_state<E: Fn(&AggregateState) -> usize>(estimate: &E, s: &AggregateState) -> (n: usize)
    requires
        estimates(*estimate),
    ensures
        n == estimate_of(*estimate, s@),
{
    let n: usize = estimate(s);
    assert(may_estimate(*estimate, s@, n));
    n
}

/// What groups in memory cost.
fn estimate_groups<E: Fn(&AggregateState) -> usize>(
    estimate: &E,
    m: &aggregate_state::Summaries,
) -> (n: u64)
    requires
        estimates(*estimate),
    ensures
        n == at_most_u64(groups_bytes(*estimate, aggregate_state::summaries_view(m@))),
{
    proof {
        use_type_invariant(m);
        m.lemma_listed();
    }
    let ghost listed = m.listed();
    let string_size: usize = std::mem::size_of::<String>();
    let mut n: u64 = 0;
    let mut i: usize = 0;
    let ghost mut part: Map<Seq<char>, AggregateStateV> = Map::empty();
    while i < m.len()
        invariant
            i <= listed.len(),
            listed == m.listed(),
            sorted_map::names_increase(listed),
            estimates(*estimate),
            string_size == vstd::layout::size_of_as_usize::<String>(),
            part.dom().finite(),
            forall|k: Seq<char>| #[trigger]
                part.contains_key(k) <==> exists|j: int|
                    0 <= j < i && sorted_map::holds_at(listed, k, j),
            forall|j: int| 0 <= j < i ==> part[(#[trigger] listed[j]).0@] == listed[j].1@,
            n == at_most_u64(groups_bytes(*estimate, part)),
        decreases listed.len() - i,
    {
        let key = m.name_at(i);
        let state = m.value_at(i);
        let e: usize = estimate_state(estimate, state);
        let ghost name = key@;
        let ghost before = part;
        proof {
            assert(!before.contains_key(name)) by {
                if before.contains_key(name) {
                    let j = choose|j: int| 0 <= j < i && sorted_map::holds_at(listed, name, j);
                    sorted_map::lemma_one_place(listed, name, j, i as int);
                }
            }
            part = before.insert(name, state@);
            lemma_groups_bytes(*estimate, part, name);
            assert(part.remove(name) =~= before);
            assert forall|k: Seq<char>| #[trigger] part.contains_key(k) <==> exists|j: int|
                0 <= j < i + 1 && sorted_map::holds_at(listed, k, j) by {
                if k == name {
                    assert(sorted_map::holds_at(listed, k, i as int));
                } else {
                    if before.contains_key(k) {
                        let j = choose|j: int| 0 <= j < i && sorted_map::holds_at(listed, k, j);
                        assert(0 <= j < i + 1 && sorted_map::holds_at(listed, k, j));
                    }
                    if exists|j: int| 0 <= j < i + 1 && sorted_map::holds_at(listed, k, j) {
                        let j = choose|j: int|
                            0 <= j < i + 1 && sorted_map::holds_at(listed, k, j);
                        assert(0 <= j < i && sorted_map::holds_at(listed, k, j));
                    }
                }
            }
            assert forall|j: int| 0 <= j < i + 1 implies part[(#[trigger] listed[j]).0@]
                == listed[j].1@ by {
                if j < i {
                    if listed[j].0@ == name {
                        sorted_map::lemma_one_place(listed, name, j, i as int);
                    }
                }
            }
        }
        n = n.saturating_add(MAP_ENTRY_OVERHEAD);
        n = n.saturating_add(string_size as u64);
        n = n.saturating_add(key.as_str().as_bytes().len() as u64);
        n = n.saturating_add(e as u64);
        i = i + 1;
    }
    proof {
        let whole = aggregate_state::summaries_view(m@);
        assert forall|k: Seq<char>|
            #![trigger part.dom().contains(k)]
            #![trigger whole.dom().contains(k)]
            part.dom().contains(k) == whole.dom().contains(k) && (part.dom().contains(k) ==> part[k]
                == whole[k]) by {
            if whole.dom().contains(k) {
                let j = choose|j: int| sorted_map::holds_at(listed, k, j);
                assert(0 <= j < i && sorted_map::holds_at(listed, k, j));
                assert(part.contains_key(k));
                sorted_map::lemma_entry_in_map(listed, j);
                assert(part[listed[j].0@] == listed[j].1@);
            }
            if part.dom().contains(k) {
                assert(part.contains_key(k));
                let j = choose|j: int| 0 <= j < i && sorted_map::holds_at(listed, k, j);
                sorted_map::lemma_entry_in_map(listed, j);
            }
        }
        assert(part.dom() =~= whole.dom());
        assert(part =~= whole);
    }
    n
}

impl GhostLobeManager {
    /// An estimate of the memory that the aggregates of all ghosts take.
    pub fn aggregate_state_bytes<E: Fn(&AggregateState) -> usize>(&self, estimate: &E) -> (n: u64)
        requires
            estimates(*estimate),
        ensures
            n == at_most_u64(all_aggregate_bytes(*estimate, self.listed())),
    {
        let ghost s = self.listed();
        let mut n: u64 = 0;
        let mut i: usize = 0;
        assert(s.take(0) =~= Seq::<GhostMetaV>::empty());
        while i < self.ghosts.len()
            invariant
                i <= self.ghosts@.len(),
                s == self.listed(),
                estimates(*estimate),
                n == at_most_u64(all_aggregate_bytes(*estimate, s.take(i as int))),
            decreases self.ghosts@.len() - i,
        {
            let g = &self.ghosts[i];
            assert(s[i as int] == g@);
            assert(s.take(i + 1).drop_last() =~= s.take(i as int));
            if let Some(agg) = &g.aggregate {
                let e: usize = estimate_state(estimate, &agg.global_aggregates);
                let groups: u64 = match &agg.residency {
                    Residency::InRam(m) => estimate_groups(estimate, m),
                    Residency::Spilled => 0,
                };
                n = n.saturating_add(e as u64);
                n = n.saturating_add(groups);
            }
            i = i + 1;
        }
        assert(s.take(i as int) =~= s);
        n
    }
}

impl Default for GhostLobeManager {
    fn default() -> (r: Self)
        ensures
            r.wf(),
            r.listed() == Seq::<GhostMetaV>::empty(),
            r.names() == Map::<Seq<char>, u16>::empty(),
            r.next() == 1,
    {
        GhostLobeManager::new()
    }
}

/// The ghosts are listed by lobe, and within a lobe by name; those by lobe and name are
/// the ones listed.
pub proof fn law_listing_is_by_lobe_and_name(s: Seq<GhostMetaV>, i: int, j: int)
    requires
        in_order(s),
        0 <= i < j < s.len(),
    ensures
        s[i].lobe_id < s[j].lobe_id || (s[i].lobe_id == s[j].lobe_id && bytes::str_lt(
            s[i].name,
            s[j].name,
        )),
        by_name(s).contains_key((s[i].lobe_id, s[i].name)),
        by_name(s)[(s[i].lobe_id, s[i].name)] == s[i],
{
    assert(comes_before(s[i], s[j].lobe_id, s[j].name));
    lemma_at(s, i);
    assert(at(s, s[i].lobe_id, s[i].name, i));
}

/// The ghosts selected are those that are kept, in the order of the listing.
pub proof fn law_selected_are_kept(s: Seq<GhostMetaV>, keep: spec_fn(GhostMetaV) -> bool)
    ensures
        selected(s, keep) == s.filter(keep),
    decreases s.len(),
{
    reveal(Seq::filter);
    if s.len() > 0 {
        law_selected_are_kept(s.drop_last(), keep);
    }
}

/// A declared ghost never expires. One with a time to live expires when it was not used
/// for longer; a use starts the time anew.
pub proof fn law_use_starts_time_anew(g: GhostMetaV, now: i64, later: i64)
    ensures
        g.lifecycle is Declared ==> !expired_at(later)(g),
        g.lifecycle matches GhostLifecycle::Auto { ttl_seconds, .. } ==> (ttl_seconds * 1_000_000
            <= i64::MAX && 0 <= now <= later ==> (expired_at(later)(bumped(g, now)) <==> later - now
            > ttl_seconds * 1_000_000)),
{
}

/// A ghost is of a class of a lobe exactly where it is of that lobe and that class.
pub proof fn law_class_is_of_lobe_and_lifecycle(g: GhostMetaV, lobe: Seq<char>)
    ensures
        of_type(lobe, GhostType::Permanent)(g) <==> g.source_lobe == lobe && g.lifecycle is Declared,
        of_type(lobe, GhostType::Ephemeral)(g) <==> g.source_lobe == lobe && (
        g.lifecycle matches GhostLifecycle::Auto { class: AutoClass::Ephemeral, .. }),
        of_type(lobe, GhostType::Promoted)(g) <==> g.source_lobe == lobe && (
        g.lifecycle matches GhostLifecycle::Auto { class: AutoClass::Promoted, .. }),
{
}

/// A use of a ghost changes when it was last used and what is counted of its uses, and
/// nothing else.
pub proof fn law_use_is_counted(g: GhostMetaV, now: i64)
    ensures
        bumped(g, now).last_accessed == now,
        bumped(g, now) == (GhostMetaV {
            last_accessed: now,
            lifecycle: bumped(g, now).lifecycle,
            ..g
        }),
        g.lifecycle is Declared ==> bumped(g, now).lifecycle == g.lifecycle,
        g.lifecycle matches GhostLifecycle::Auto { class, ttl_seconds, telemetry } ==> (bumped(
            g,
            now,
        ).lifecycle matches GhostLifecycle::Auto { class: c, ttl_seconds: t, telemetry: u } && c
            == class && t == ttl_seconds && (telemetry.access_count_total < u64::MAX
            ==> u.access_count_total == telemetry.access_count_total + 1)),
{
}

/// A rotation moves what was noted of each day one day on and drops the lowest, and
/// changes nothing else of a ghost.
pub proof fn law_rotation_moves_days(g: GhostMetaV)
    ensures
        g.lifecycle is Declared ==> rotated(g) == g,
        rotated(g) == (GhostMetaV { lifecycle: rotated(g).lifecycle, ..g }),
        g.lifecycle matches GhostLifecycle::Auto { class, ttl_seconds, telemetry } ==> (rotated(
            g,
        ).lifecycle matches GhostLifecycle::Auto { class: c, ttl_seconds: t, telemetry: u } && c
            == class && t == ttl_seconds && u.access_count_total == telemetry.access_count_total
            && u.daily_access_bitmap == telemetry.daily_access_bitmap / 2),
{
    match g.lifecycle {
        GhostLifecycle::Auto { telemetry, .. } => {
            let b = telemetry.daily_access_bitmap;
            assert(b >> 1 == b / 2) by (bit_vector);
        },
        GhostLifecycle::Declared => {},
    }
}

/// A ghost can be promoted exactly where it is ephemeral and was used on each of the
/// seven days that are noted lowest.
pub proof fn law_promotable_after_seven_days(g: GhostMetaV)
    ensures
        promotable()(g) <==> (g.lifecycle matches GhostLifecycle::Auto {
            class: AutoClass::Ephemeral,
            telemetry,
            ..
        } && telemetry.daily_access_bitmap % 128 == 127),
{
    match g.lifecycle {
        GhostLifecycle::Auto { telemetry, .. } => {
            let b = telemetry.daily_access_bitmap;
            assert(b & 0x7F == b % 128) by (bit_vector);
        },
        GhostLifecycle::Declared => {},
    }
}

/// A promoted ghost is named after what it was made for, and lives for the longer time.
pub proof fn law_promoted_name_says_so(x: Seq<char>, g: GhostMetaV)
    ensures
        promoted_name("auto_"@ + x) == "promoted_"@ + x,
        g.name.len() < 5 || g.name.take(5) != "auto_"@ ==> promoted(g).name == g.name
            + "_promoted"@,
        g.lifecycle is Auto ==> (promoted(g).lifecycle matches GhostLifecycle::Auto {
            class: AutoClass::Promoted,
            ttl_seconds,
            ..
        } && ttl_seconds == 2_592_000),
{
    reveal_strlit("auto_");
    let name = "auto_"@ + x;
    assert(name.take(5) =~= "auto_"@);
    assert(name.skip(5) =~= x);
}

/// The age of an order is the whole seconds since it was written.
pub proof fn law_age_is_whole_seconds(now: i64, ts: i64)
    requires
        ts <= now,
        now - ts <= i64::MAX,
    ensures
        age_seconds(now, ts) * 1_000_000 <= now - ts < (age_seconds(now, ts) + 1) * 1_000_000,
{
}

/// The line of a ghost says what it is called, what it is of, and how many entries it has,
/// and that its aggregates are stale or its upkeep fell behind where that is so.
pub proof fn law_line_says_what_ghost_is(g: GhostMetaV, now: i64)
    ensures
        info_of(g, now).name == g.name,
        info_of(g, now).source_lobe == g.source_lobe,
        info_of(g, now).record_count == g.index_count,
        info_of(g, now).maintenance_degraded == g.maintenance_degraded,
        g.aggregate is None ==> !info_of(g, now).aggregates_stale,
        g.aggregate matches Some(a) && a.global.dirty ==> info_of(g, now).aggregates_stale,
        info_of(g, now).order_age_secs is Some <==> g.order_emitted_at is Some,
{
}

/// What the aggregates of ghosts cost together is what each costs: one more adds its own
/// cost. Of a ghost whose groups are not in memory only the aggregate over all members
/// counts, and of one without aggregates nothing.
pub proof fn law_memory_adds_up<E: Fn(&AggregateState) -> usize>(
    estimate: E,
    s: Seq<GhostMetaV>,
    g: GhostMetaV,
    x: &AggregateState,
    n: usize,
)
    requires
        estimates(estimate),
        estimate.ensures((x,), n),
    ensures
        all_aggregate_bytes(estimate, s.push(g)) == all_aggregate_bytes(estimate, s)
            + aggregate_bytes(estimate, g),
        all_aggregate_bytes(estimate, Seq::<GhostMetaV>::empty()) == 0,
        g.aggregate is None ==> aggregate_bytes(estimate, g) == 0,
        g.aggregate matches Some(a) && a.residency is Spilled && a.global == x@
            ==> aggregate_bytes(estimate, g) == n,
{
    assert(s.push(g).drop_last() =~= s);
    assert(may_estimate(estimate, x@, n));
}

impl GhostLobeManager {
    /// The ghost that has to go first is one of that lobe and class, and none of them was
    /// used before it.
    pub proof fn law_longest_unused_goes_first(
        &self,
        source_lobe: Seq<char>,
        ghost_type: GhostType,
        i: int,
        j: int,
    )
        requires
            self.is_lru(source_lobe, ghost_type, i),
            0 <= j < self.listed().len(),
        ensures
            0 <= i < self.listed().len(),
            self.listed()[i].source_lobe == source_lobe,
            ghost_meta::type_of(self.listed()[i].lifecycle) == ghost_type,
            self.listed()[j].source_lobe == source_lobe && ghost_meta::type_of(
                self.listed()[j].lifecycle,
            ) == ghost_type ==> self.listed()[i].last_accessed <= self.listed()[j].last_accessed,
    {
    }
}

/// A group more costs what its name takes, what its summary is estimated at, and what an
/// entry of the map takes besides.
pub proof fn law_group_adds_its_cost<E: Fn(&AggregateState) -> usize>(
    estimate: E,
    m: Map<Seq<char>, AggregateStateV>,
    k: Seq<char>,
    x: &AggregateState,
    n: usize,
)
    requires
        estimates(estimate),
        estimate.ensures((x,), n),
        m.dom().finite(),
        !m.contains_key(k),
    ensures
        groups_bytes(estimate, m.insert(k, x@)) == groups_bytes(estimate, m) + 32
            + vstd::layout::size_of_as_usize::<String>() + vstd::utf8::encode_utf8(k).len() + n,
{
    let more = m.insert(k, x@);
    lemma_groups_bytes(estimate, more, k);
    assert(more.remove(k) =~= m);
    assert(may_estimate(estimate, x@, n));
}

} // verus!
