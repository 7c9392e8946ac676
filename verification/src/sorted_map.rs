//! An ordered map from names to values.

use crate::bytes;
use vstd::prelude::*;

verus! {

/// The names of `entries` increase strictly.
pub open spec fn names_increase<V>(entries: Seq<(String, V)>) -> bool {
    forall|i: int, j: int|
        #![trigger entries[i], entries[j]]
        0 <= i < j < entries.len() ==> bytes::str_lt(entries[i].0@, entries[j].0@)
}

/// The entry at `i` is the one of `key`.
pub open spec fn holds_at<V>(entries: Seq<(String, V)>, key: Seq<char>, i: int) -> bool {
    0 <= i < entries.len() && entries[i].0@ == key
}

/// The map that `entries` stands for.
pub open spec fn entries_map<V>(entries: Seq<(String, V)>) -> Map<Seq<char>, V> {
    Map::new(
        |k: Seq<char>| exists|i: int| holds_at(entries, k, i),
        |k: Seq<char>| entries[choose|i: int| holds_at(entries, k, i)].1,
    )
}

/// `keep` may answer `b` for the entry.
pub open spec fn judged<V, F: Fn(&str, &V) -> bool>(keep: F, e: (String, V), b: bool) -> bool {
    exists|n: &str| n@ == e.0@ && #[trigger] keep.ensures((n, &e.1), b)
}

/// With increasing names each name has one place.
pub proof fn lemma_one_place<V>(entries: Seq<(String, V)>, key: Seq<char>, i: int, j: int)
    requires
        names_increase(entries),
        holds_at(entries, key, i),
        holds_at(entries, key, j),
    ensures
        i == j,
{
    if i < j {
        bytes::lemma_lex_irreflexive(vstd::utf8::encode_utf8(key));
    } else if j < i {
        bytes::lemma_lex_irreflexive(vstd::utf8::encode_utf8(key));
    }
}

/// The entry at `i` is what the map holds for its name.
pub proof fn lemma_entry_in_map<V>(entries: Seq<(String, V)>, i: int)
    requires
        names_increase(entries),
        0 <= i < entries.len(),
    ensures
        entries_map(entries).contains_key(entries[i].0@),
        entries_map(entries)[entries[i].0@] == entries[i].1,
{
    let key = entries[i].0@;
    assert(holds_at(entries, key, i));
    let k = choose|k: int| holds_at(entries, key, k);
    lemma_one_place(entries, key, i, k);
}

/// A map whose entries are kept in increasing order of their names.
#[derive(Debug)]
pub struct SortedMap<V> {
    entries: Vec<(String, V)>,
}

impl<V> View for SortedMap<V> {
    type V = Map<Seq<char>, V>;

    closed spec fn view(&self) -> Map<Seq<char>, V> {
        entries_map(self.entries@)
    }
}

impl<V> SortedMap<V> {
    /// The entries, in the order of their names.
    pub closed spec fn listed(&self) -> Seq<(String, V)> {
        self.entries@
    }

    /// The names increase strictly.
    #[verifier::type_invariant]
    pub open spec fn wf(&self) -> bool {
        names_increase(self.listed())
    }

    /// What the map holds is what its entries list.
    pub proof fn lemma_listed(&self)
        ensures
            self@ == entries_map(self.listed()),
    {
    }

    /// An empty map.
    pub fn new() -> (r: Self)
        ensures
            r.listed() == Seq::<(String, V)>::empty(),
            r@ == Map::<Seq<char>, V>::empty(),
    {
        let r = SortedMap { entries: Vec::new() };
        assert(r@ =~= Map::<Seq<char>, V>::empty());
        r
    }

    /// The number of entries.
    pub fn len(&self) -> (n: usize)
        ensures
            n == self.listed().len(),
            self@.dom().finite(),
            n == self@.dom().len(),
    {
        proof {
            use_type_invariant(self);
            lemma_entries_size(self.entries@);
        }
        self.entries.len()
    }

    /// Whether there is no entry.
    pub fn is_empty(&self) -> (r: bool)
        ensures
            r == (self.listed().len() == 0),
            r == (self@ == Map::<Seq<char>, V>::empty()),
    {
        proof {
            use_type_invariant(self);
        }
        proof {
            if self.entries@.len() == 0 {
                assert(self@ =~= Map::<Seq<char>, V>::empty());
            } else {
                lemma_entry_in_map(self.entries@, 0);
            }
        }
        self.entries.is_empty()
    }

    /// The name of the entry at `i`.
    pub fn name_at(&self, i: usize) -> (r: &String)
        requires
            i < self.listed().len(),
        ensures
            *r == self.listed()[i as int].0,
    {
        &self.entries[i].0
    }

    /// The value of the entry at `i`.
    pub fn value_at(&self, i: usize) -> (r: &V)
        requires
            i < self.listed().len(),
        ensures
            *r == self.listed()[i as int].1,
    {
        &self.entries[i].1
    }

    /// The first place whose name does not sort before `key`.
    fn place(&self, key: &str) -> (at: usize)
        ensures
            at <= self.listed().len(),
            forall|i: int|
                #![trigger self.listed()[i]]
                0 <= i < at ==> bytes::str_lt(self.listed()[i].0@, key@),
            forall|i: int|
                #![trigger self.listed()[i]]
                at <= i < self.listed().len() ==> self.listed()[i].0@ == key@ || bytes::str_lt(
                    key@,
                    self.listed()[i].0@,
                ),
    {
        proof {
            use_type_invariant(self);
        }
        let mut at: usize = 0;
        while at < self.entries.len() && bytes::str_less(self.entries[at].0.as_str(), key)
            invariant
                at <= self.entries@.len(),
                forall|i: int|
                    #![trigger self.entries@[i]]
                    0 <= i < at ==> bytes::str_lt(self.entries@[i].0@, key@),
            decreases self.entries@.len() - at,
        {
            at = at + 1;
        }
        proof {
            if at < self.entries@.len() {
                bytes::lemma_str_total(self.entries@[at as int].0@, key@);
            }
            assert forall|i: int|
                #![trigger self.entries@[i]]
                at <= i < self.entries@.len() implies self.entries@[i].0@ == key@ || bytes::str_lt(
                key@,
                self.entries@[i].0@,
            ) by {
                if i > at {
                    let a = self.entries@[at as int].0@;
                    let b = self.entries@[i].0@;
                    if a != key@ {
                        bytes::lemma_lex_transitive(
                            vstd::utf8::encode_utf8(key@),
                            vstd::utf8::encode_utf8(a),
                            vstd::utf8::encode_utf8(b),
                        );
                    }
                }
            }
        }
        at
    }

    /// The place of `key`, if the map holds it.
    pub fn find(&self, key: &str) -> (r: Option<usize>)
        ensures
            match r {
                Some(i) => {
                    &&& holds_at(self.listed(), key@, i as int)
                    &&& self@.contains_key(key@)
                    &&& self@[key@] == self.listed()[i as int].1
                },
                None => {
                    &&& !self@.contains_key(key@)
                    &&& forall|i: int|
                        #![trigger self.listed()[i]]
                        0 <= i < self.listed().len() ==> self.listed()[i].0@ != key@
                },
            },
    {
        proof {
            use_type_invariant(self);
        }
        let at = self.place(key);
        if at < self.entries.len() && bytes::str_equal(self.entries[at].0.as_str(), key) {
            proof {
                lemma_entry_in_map(self.entries@, at as int);
            }
            Some(at)
        } else {
            proof {
                assert forall|i: int|
                    #![trigger self.entries@[i]]
                    0 <= i < self.entries@.len() implies self.entries@[i].0@ != key@ by {
                    bytes::lemma_lex_irreflexive(vstd::utf8::encode_utf8(key@));
                    if i > at {
                        let a = self.entries@[at as int].0@;
                        assert(bytes::str_lt(a, self.entries@[i].0@));
                        if self.entries@[i].0@ == key@ {
                            bytes::lemma_lex_transitive(
                                vstd::utf8::encode_utf8(key@),
                                vstd::utf8::encode_utf8(a),
                                vstd::utf8::encode_utf8(key@),
                            );
                        }
                    }
                }
            }
            None
        }
    }

    /// Whether the map holds `key`.
    pub fn contains_key(&self, key: &str) -> (r: bool)
        ensures
            r == self@.contains_key(key@),
    {
        match self.find(key) {
            Some(_) => true,
            None => false,
        }
    }

    /// The value of `key`.
    pub fn get(&self, key: &str) -> (r: Option<&V>)
        ensures
            match r {
                Some(v) => self@.contains_key(key@) && *v == self@[key@],
                None => !self@.contains_key(key@),
            },
    {
        match self.find(key) {
            Some(i) => Some(&self.entries[i].1),
            None => None,
        }
    }

    /// Puts `value` under `key` and returns what was there.
    pub fn insert(&mut self, key: String, value: V) -> (r: Option<V>)
        ensures
            final(self)@ == old(self)@.insert(key@, value),
            match r {
                Some(v) => old(self)@.contains_key(key@) && v == old(self)@[key@],
                None => !old(self)@.contains_key(key@),
            },
            old(self)@.contains_key(key@) ==> final(self).listed().len() == old(
                self,
            ).listed().len(),
            !old(self)@.contains_key(key@) ==> final(self).listed().len() == old(
                self,
            ).listed().len() + 1,
    {
        proof {
            use_type_invariant(&*self);
        }
        let ghost before = self.entries@;
        let at = self.place(key.as_str());
        if at < self.entries.len() && bytes::str_equal(self.entries[at].0.as_str(), key.as_str()) {
            proof {
                lemma_entry_in_map(before, at as int);
            }
            let ghost name = key;
            let mut entries: Vec<(String, V)> = Vec::new();
            std::mem::swap(&mut entries, &mut self.entries);
            let last = entries.remove(at);
            entries.insert(at, (key, value));
            proof {
                assert(entries@ =~= before.update(at as int, (name, value)));
                lemma_replace(before, at as int, name, value);
            }
            self.entries = entries;
            Some(last.1)
        } else {
            let ghost name = key;
            let mut entries: Vec<(String, V)> = Vec::new();
            std::mem::swap(&mut entries, &mut self.entries);
            entries.insert(at, (key, value));
            proof {
                lemma_place_free(before, name@, at as int);
                lemma_put(before, at as int, name, value);
            }
            self.entries = entries;
            None
        }
    }

    /// Takes the entry of `key` out and returns its value.
    pub fn remove(&mut self, key: &str) -> (r: Option<V>)
        ensures
            final(self)@ == old(self)@.remove(key@),
            match r {
                Some(v) => old(self)@.contains_key(key@) && v == old(self)@[key@],
                None => !old(self)@.contains_key(key@),
            },
    {
        proof {
            use_type_invariant(&*self);
        }
        let ghost before = self.entries@;
        match self.find(key) {
            Some(at) => {
                let mut entries: Vec<(String, V)> = Vec::new();
                std::mem::swap(&mut entries, &mut self.entries);
                let e = entries.remove(at);
                proof {
                    lemma_drop(before, at as int);
                }
                self.entries = entries;
                Some(e.1)
            },
            None => {
                assert(self@ =~= self@.remove(key@));
                None
            },
        }
    }

    /// The values, those of later names first.
    pub fn into_values_reversed(self) -> (r: Vec<V>)
        ensures
            r@.len() == self.listed().len(),
            forall|i: int|
                0 <= i < r@.len() ==> #[trigger] r@[i] == self.listed()[self.listed().len() - 1
                    - i].1,
    {
        let ghost all = self.entries@;
        let mut rest = self.entries;
        let mut r: Vec<V> = Vec::new();
        while rest.len() > 0
            invariant
                r@.len() + rest@.len() == all.len(),
                forall|i: int| 0 <= i < rest@.len() ==> #[trigger] rest@[i] == all[i],
                forall|i: int|
                    0 <= i < r@.len() ==> #[trigger] r@[i] == all[all.len() - 1 - i].1,
            decreases rest@.len(),
        {
            if let Some(e) = rest.pop() {
                r.push(e.1);
            }
        }
        r
    }

    /// Empties the map.
    pub fn clear(&mut self)
        ensures
            final(self).listed() == Seq::<(String, V)>::empty(),
            final(self)@ == Map::<Seq<char>, V>::empty(),
    {
        self.entries = Vec::new();
        assert(self@ =~= Map::<Seq<char>, V>::empty());
    }
}

/// A map with increasing names has as many names as entries.
pub proof fn lemma_entries_size<V>(entries: Seq<(String, V)>)
    requires
        names_increase(entries),
    ensures
        entries_map(entries).dom().finite(),
        entries_map(entries).dom().len() == entries.len(),
    decreases entries.len(),
{
    let m = entries_map(entries);
    if entries.len() == 0 {
        assert(m.dom() =~= Set::<Seq<char>>::empty());
    } else {
        let init = entries.drop_last();
        let last = entries.last().0@;
        assert(names_increase(init)) by {
            assert forall|i: int, j: int|
                #![trigger init[i], init[j]]
                0 <= i < j < init.len() implies bytes::str_lt(init[i].0@, init[j].0@) by {
                assert(bytes::str_lt(entries[i].0@, entries[j].0@));
            }
        }
        lemma_entries_size(init);
        let d = entries_map(init).dom();
        assert(!d.contains(last)) by {
            if d.contains(last) {
                let i = choose|i: int| holds_at(init, last, i);
                assert(holds_at(entries, last, i));
                assert(holds_at(entries, last, entries.len() - 1));
                lemma_one_place(entries, last, i, entries.len() - 1);
            }
        }
        assert(m.dom() =~= d.insert(last)) by {
            assert forall|k: Seq<char>| #[trigger] m.dom().contains(k) <==> d.insert(last).contains(
                k,
            ) by {
                if m.dom().contains(k) {
                    let i = choose|i: int| holds_at(entries, k, i);
                    if i < init.len() {
                        assert(holds_at(init, k, i));
                    }
                }
                if d.contains(k) {
                    let i = choose|i: int| holds_at(init, k, i);
                    assert(holds_at(entries, k, i));
                }
                if k == last {
                    assert(holds_at(entries, k, entries.len() - 1));
                }
            }
        }
    }
}

impl<V> SortedMap<V> {
    /// The map with `f` applied to each value.
    pub fn map_with<W, F: Fn(&V) -> W>(&self, f: &F) -> (r: SortedMap<W>)
        requires
            forall|v: &V| #[trigger] f.requires((v,)),
        ensures
            r@.dom() == self@.dom(),
            forall|k: Seq<char>| #[trigger]
                self@.contains_key(k) ==> f.ensures((&self@[k],), r@[k]),
            r.listed().len() == self.listed().len(),
            forall|i: int|
                0 <= i < self.listed().len() ==> (#[trigger] r.listed()[i]).0@
                    == self.listed()[i].0@ && f.ensures(
                    (&self.listed()[i].1,),
                    r.listed()[i].1,
                ),
    {
        proof {
            use_type_invariant(self);
        }
        let mut entries: Vec<(String, W)> = Vec::new();
        let mut i: usize = 0;
        while i < self.entries.len()
            invariant
                i <= self.entries@.len(),
                entries@.len() == i,
                names_increase(self.entries@),
                forall|v: &V| #[trigger] f.requires((v,)),
                forall|j: int|
                    0 <= j < i ==> (#[trigger] entries@[j]).0@ == self.entries@[j].0@ && f.ensures(
                        (&self.entries@[j].1,),
                        entries@[j].1,
                    ),
            decreases self.entries@.len() - i,
        {
            let e = &self.entries[i];
            entries.push((e.0.clone(), f(&e.1)));
            i = i + 1;
        }
        assert(names_increase(entries@)) by {
            assert forall|a: int, b: int| 0 <= a < b < entries@.len() implies bytes::str_lt(
                (#[trigger] entries@[a]).0@,
                (#[trigger] entries@[b]).0@,
            ) by {
                assert(bytes::str_lt(self.entries@[a].0@, self.entries@[b].0@));
            }
        }
        let r = SortedMap { entries };
        proof {
            assert forall|k: Seq<char>|
                #![trigger r@.dom().contains(k)]
                #![trigger self@.dom().contains(k)]
                r@.dom().contains(k) == self@.dom().contains(k) by {
                if self@.dom().contains(k) {
                    let j = choose|j: int| holds_at(self.entries@, k, j);
                    assert(holds_at(r.entries@, k, j));
                }
                if r@.dom().contains(k) {
                    let j = choose|j: int| holds_at(r.entries@, k, j);
                    assert(holds_at(self.entries@, k, j));
                }
            }
            assert(r@.dom() =~= self@.dom());
            assert forall|k: Seq<char>| #[trigger] self@.contains_key(k) implies f.ensures(
                (&self@[k],),
                r@[k],
            ) by {
                let j = choose|j: int| holds_at(self.entries@, k, j);
                lemma_entry_in_map(self.entries@, j);
                lemma_entry_in_map(r.entries@, j);
                assert(r.entries@[j].0@ == k);
            }
        }
        r
    }

    /// The entries that `keep` accepts.
    pub fn filter_with<F: Fn(&str, &V) -> bool>(self, keep: &F) -> (r: SortedMap<V>)
        requires
            forall|k: &str, v: &V| #[trigger] keep.requires((k, v)),
        ensures
            forall|k: Seq<char>| #[trigger]
                r@.contains_key(k) ==> self@.contains_key(k) && r@[k] == self@[k] && exists|n: &str|
                    n@ == k && #[trigger] keep.ensures((n, &self@[k]), true),
            forall|k: Seq<char>| #[trigger]
                self@.contains_key(k) && !r@.contains_key(k) ==> exists|n: &str|
                    n@ == k && #[trigger] keep.ensures((n, &self@[k]), false),
    {
        proof {
            use_type_invariant(&self);
        }
        let ghost src = self.entries@;
        let ghost whole = self@;
        let mut rest = self.entries;
        let mut rev: Vec<(String, V)> = Vec::new();
        // The kept entries, in reverse, of those taken from the back.
        while rest.len() > 0
            invariant
                rest@.len() <= src.len(),
                rest@ == src.take(rest@.len() as int),
                names_increase(src),
                whole == entries_map(src),
                forall|k: &str, v: &V| #[trigger] keep.requires((k, v)),
                forall|a: int, b: int|
                    0 <= a < b < rev@.len() ==> bytes::str_lt(
                        (#[trigger] rev@[b]).0@,
                        (#[trigger] rev@[a]).0@,
                    ),
                forall|a: int|
                    0 <= a < rev@.len() ==> exists|j: int|
                        rest@.len() <= j < src.len() && #[trigger] src[j] == #[trigger] rev@[a],
                forall|a: int| 0 <= a < rev@.len() ==> judged(*keep, #[trigger] rev@[a], true),
                forall|j: int|
                    #![trigger src[j]]
                    rest@.len() <= j < src.len() ==> rev@.contains(src[j]) || judged(
                        *keep,
                        src[j],
                        false,
                    ),
            decreases rest@.len(),
        {
            let ghost before = rev@;
            let ghost last = rest@.len() - 1;
            match rest.pop() {
                Some(e) => {
                    assert(e == src[last]);
                    if keep(e.0.as_str(), &e.1) {
                        assert(judged(*keep, e, true));
                        proof {
                            assert forall|a: int| 0 <= a < before.len() implies bytes::str_lt(
                                e.0@,
                                (#[trigger] before[a]).0@,
                            ) by {
                                let j = choose|j: int|
                                    last + 1 <= j < src.len() && #[trigger] src[j] == before[a];
                                assert(bytes::str_lt(src[last].0@, src[j].0@));
                            }
                        }
                        rev.push(e);
                        proof {
                            assert(rev@[before.len() as int] == src[last]);
                            assert forall|j: int|
                                #![trigger src[j]]
                                rest@.len() <= j < src.len() implies rev@.contains(src[j])
                                || judged(*keep, src[j], false) by {
                                if j > last && before.contains(src[j]) {
                                    let a = choose|a: int|
                                        0 <= a < before.len() && before[a] == src[j];
                                    assert(rev@[a] == src[j]);
                                }
                            }
                            assert forall|a: int| 0 <= a < rev@.len() implies judged(
                                *keep,
                                #[trigger] rev@[a],
                                true,
                            ) by {
                                if a < before.len() {
                                    assert(rev@[a] == before[a]);
                                }
                            }
                            assert forall|a: int| 0 <= a < rev@.len() implies exists|j: int|
                                rest@.len() <= j < src.len() && #[trigger] src[j]
                                    == #[trigger] rev@[a] by {
                                if a < before.len() {
                                    assert(rev@[a] == before[a]);
                                } else {
                                    assert(src[last] == rev@[a]);
                                }
                            }
                        }
                    } else {
                        assert(judged(*keep, e, false));
                    }
                },
                None => {},
            }
            assert(rest@ =~= src.take(rest@.len() as int));
        }
        let mut entries: Vec<(String, V)> = Vec::new();
        let ghost kept = rev@;
        while rev.len() > 0
            invariant
                rev@.len() + entries@.len() == kept.len(),
                rev@ == kept.take(rev@.len() as int),
                forall|a: int|
                    0 <= a < entries@.len() ==> #[trigger] entries@[a] == kept[kept.len() - 1 - a],
            decreases rev@.len(),
        {
            match rev.pop() {
                Some(e) => {
                    entries.push(e);
                },
                None => {},
            }
            assert(rev@ =~= kept.take(rev@.len() as int));
        }
        assert(names_increase(entries@));
        let r = SortedMap { entries };
        proof {
            assert forall|k: Seq<char>| #[trigger] r@.contains_key(k) implies whole.contains_key(k)
                && r@[k] == whole[k] && exists|n: &str|
                n@ == k && #[trigger] keep.ensures((n, &whole[k]), true) by {
                let a = choose|a: int| holds_at(r.entries@, k, a);
                lemma_entry_in_map(r.entries@, a);
                let c = kept.len() - 1 - a;
                assert(kept[c] == r.entries@[a]);
                assert(judged(*keep, kept[c], true));
                let j = choose|j: int| 0 <= j < src.len() && #[trigger] src[j] == kept[c];
                lemma_entry_in_map(src, j);
                assert(holds_at(src, k, j));
            }
            assert forall|k: Seq<char>| #[trigger]
                whole.contains_key(k) && !r@.contains_key(k) implies exists|n: &str|
                n@ == k && #[trigger] keep.ensures((n, &whole[k]), false) by {
                let j = choose|j: int| holds_at(src, k, j);
                lemma_entry_in_map(src, j);
                if kept.contains(src[j]) {
                    let c = choose|c: int| 0 <= c < kept.len() && kept[c] == src[j];
                    assert(r.entries@[kept.len() - 1 - c] == src[j]);
                    assert(holds_at(r.entries@, k, kept.len() - 1 - c));
                }
            }
        }
        r
    }
}


/// A name that sorts between its neighbours is not among the entries.
proof fn lemma_place_free<V>(entries: Seq<(String, V)>, key: Seq<char>, at: int)
    requires
        names_increase(entries),
        0 <= at <= entries.len(),
        forall|i: int| #![trigger entries[i]] 0 <= i < at ==> bytes::str_lt(entries[i].0@, key),
        forall|i: int|
            #![trigger entries[i]]
            at <= i < entries.len() ==> entries[i].0@ == key || bytes::str_lt(key, entries[i].0@),
        at < entries.len() ==> entries[at].0@ != key,
    ensures
        forall|i: int| #![trigger entries[i]] 0 <= i < entries.len() ==> entries[i].0@ != key,
        forall|i: int|
            #![trigger entries[i]]
            at <= i < entries.len() ==> bytes::str_lt(key, entries[i].0@),
{
    assert forall|i: int| #![trigger entries[i]] 0 <= i < entries.len() implies entries[i].0@
        != key by {
        bytes::lemma_lex_irreflexive(vstd::utf8::encode_utf8(key));
        if i > at {
            let a = entries[at].0@;
            assert(bytes::str_lt(a, entries[i].0@));
            if entries[i].0@ == key {
                bytes::lemma_lex_transitive(
                    vstd::utf8::encode_utf8(key),
                    vstd::utf8::encode_utf8(a),
                    vstd::utf8::encode_utf8(key),
                );
            }
        }
    }
}

/// Replacing the value of an entry replaces it in the map.
proof fn lemma_replace<V>(entries: Seq<(String, V)>, at: int, name: String, value: V)
    requires
        names_increase(entries),
        0 <= at < entries.len(),
        entries[at].0@ == name@,
    ensures
        names_increase(entries.update(at, (name, value))),
        entries_map(entries.update(at, (name, value))) == entries_map(entries).insert(
            name@,
            value,
        ),
{
    let after = entries.update(at, (name, value));
    assert forall|i: int, j: int|
        #![trigger after[i], after[j]]
        0 <= i < j < after.len() implies bytes::str_lt(after[i].0@, after[j].0@) by {
        assert(bytes::str_lt(entries[i].0@, entries[j].0@));
    }
    let m = entries_map(after);
    let n = entries_map(entries).insert(name@, value);
    assert forall|k: Seq<char>|
        #![trigger m.dom().contains(k)]
        #![trigger n.dom().contains(k)]
        m.dom().contains(k) == n.dom().contains(k) && (m.dom().contains(k) ==> m[k] == n[k]) by {
        if m.contains_key(k) {
            let i = choose|i: int| holds_at(after, k, i);
            assert(holds_at(entries, k, i));
            lemma_entry_in_map(entries, i);
            lemma_entry_in_map(after, i);
            lemma_entry_in_map(after, at);
            if k == name@ {
                lemma_one_place(after, k, i, at);
            }
        }
        if n.contains_key(k) {
            if k == name@ {
                assert(holds_at(after, k, at));
            } else {
                let i = choose|i: int| holds_at(entries, k, i);
                assert(holds_at(after, k, i));
            }
        }
    }
    assert(m.dom() =~= n.dom());
    assert(m =~= n);
}

/// Putting a new name in its place puts it in the map.
proof fn lemma_put<V>(entries: Seq<(String, V)>, at: int, name: String, value: V)
    requires
        names_increase(entries),
        0 <= at <= entries.len(),
        forall|i: int| #![trigger entries[i]] 0 <= i < at ==> bytes::str_lt(entries[i].0@, name@),
        forall|i: int|
            #![trigger entries[i]]
            at <= i < entries.len() ==> bytes::str_lt(name@, entries[i].0@),
        forall|i: int| #![trigger entries[i]] 0 <= i < entries.len() ==> entries[i].0@ != name@,
    ensures
        names_increase(entries.insert(at, (name, value))),
        entries_map(entries.insert(at, (name, value))) == entries_map(entries).insert(
            name@,
            value,
        ),
        !entries_map(entries).contains_key(name@),
{
    let after = entries.insert(at, (name, value));
    assert forall|i: int, j: int|
        #![trigger after[i], after[j]]
        0 <= i < j < after.len() implies bytes::str_lt(after[i].0@, after[j].0@) by {
        let a = if i < at { i } else { i - 1 };
        let b = if j < at { j } else { j - 1 };
        if i != at && j != at {
            assert(bytes::str_lt(entries[a].0@, entries[b].0@));
        } else if i == at {
            assert(bytes::str_lt(name@, entries[b].0@));
        } else {
            assert(bytes::str_lt(entries[a].0@, name@));
        }
    }
    let m = entries_map(after);
    let n = entries_map(entries).insert(name@, value);
    assert forall|k: Seq<char>|
        #![trigger m.dom().contains(k)]
        #![trigger n.dom().contains(k)]
        m.dom().contains(k) == n.dom().contains(k) && (m.dom().contains(k) ==> m[k] == n[k]) by {
        if m.contains_key(k) {
            let i = choose|i: int| holds_at(after, k, i);
            lemma_entry_in_map(after, i);
            if i != at {
                let a = if i < at { i } else { i - 1 };
                assert(holds_at(entries, k, a));
                lemma_entry_in_map(entries, a);
            }
        }
        if n.contains_key(k) {
            if k == name@ {
                assert(holds_at(after, k, at));
            } else {
                let i = choose|i: int| holds_at(entries, k, i);
                let b = if i < at { i } else { i + 1 };
                assert(holds_at(after, k, b));
            }
        }
    }
    assert(m.dom() =~= n.dom());
    assert(m =~= n);
}

/// Taking an entry out takes its name out of the map.
proof fn lemma_drop<V>(entries: Seq<(String, V)>, at: int)
    requires
        names_increase(entries),
        0 <= at < entries.len(),
    ensures
        names_increase(entries.remove(at)),
        entries_map(entries.remove(at)) == entries_map(entries).remove(entries[at].0@),
{
    let after = entries.remove(at);
    assert forall|i: int, j: int|
        #![trigger after[i], after[j]]
        0 <= i < j < after.len() implies bytes::str_lt(after[i].0@, after[j].0@) by {
        let a = if i < at { i } else { i + 1 };
        let b = if j < at { j } else { j + 1 };
        assert(bytes::str_lt(entries[a].0@, entries[b].0@));
    }
    let m = entries_map(after);
    let n = entries_map(entries).remove(entries[at].0@);
    assert forall|k: Seq<char>|
        #![trigger m.dom().contains(k)]
        #![trigger n.dom().contains(k)]
        m.dom().contains(k) == n.dom().contains(k) && (m.dom().contains(k) ==> m[k] == n[k]) by {
        if m.contains_key(k) {
            let i = choose|i: int| holds_at(after, k, i);
            let a = if i < at { i } else { i + 1 };
            assert(holds_at(entries, k, a));
            lemma_entry_in_map(after, i);
            lemma_entry_in_map(entries, a);
            if k == entries[at].0@ {
                lemma_one_place(entries, k, a, at);
            }
        }
        if n.contains_key(k) {
            let i = choose|i: int| holds_at(entries, k, i);
            let b = if i < at { i } else { i - 1 };
            assert(holds_at(after, k, b));
        }
    }
    assert(m.dom() =~= n.dom());
    assert(m =~= n);
}

} // verus!
