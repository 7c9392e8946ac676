//! The rows of grouped results, and groups in the order of a metric.

use crate::aggregate_state::{AggregateState, AggregateStateV, Summaries};
use crate::byte_set::ByteSet;
use crate::bytes;
use crate::float;
use crate::ghost_keys;
use crate::ghost_meta::{MetricOrder, MetricOrderV};
use crate::ghost_ops;
use crate::record;
use crate::record::Fields;
use crate::sorted_map;
use crate::sorted_map::SortedMap;
use crate::text;
use crate::value;
use crate::value::{Value, ValueV};
use vstd::prelude::*;
use vstd::utf8;

verus! {

/// What grouped results take from the aggregate layer.
pub struct RowOps<FT, EK, PT, FV, RS, SH, EN, DE> {
    /// The text of a value in a group key.
    pub fragment: FT,
    /// The group key of such texts.
    pub join_key: EK,
    /// The texts of a group key.
    pub split_key: PT,
    /// The value of such a text.
    pub fragment_value: FV,
    /// The metrics of a state, by label.
    pub results: RS,
    /// How a value reads.
    pub show: SH,
    /// The bytes of a state.
    pub encode: EN,
    /// The state of bytes.
    pub decode: DE,
}

/// What named values stand for.
pub open spec fn named_values(s: Seq<(String, Value)>) -> Seq<(Seq<char>, ValueV)> {
    s.map_values(|p: (String, Value)| (p.0@, p.1@))
}

/// What an optional state stands for.
pub open spec fn opt_state(s: Option<AggregateState>) -> Option<AggregateStateV> {
    match s {
        Some(x) => Some(x@),
        None => None,
    }
}

impl<
    FT: Fn(&Value) -> String,
    EK: Fn(&Vec<String>) -> String,
    PT: Fn(&str) -> Vec<String>,
    FV: Fn(&str) -> Value,
    RS: Fn(&AggregateState) -> Vec<(String, Value)>,
    SH: Fn(&Value) -> String,
    EN: Fn(&AggregateState) -> Vec<u8>,
    DE: Fn(&[u8]) -> Option<AggregateState>,
> RowOps<FT, EK, PT, FV, RS, SH, EN, DE> {
    /// The functions accept everything and depend on nothing but what their
    /// arguments stand for.
    pub open spec fn sound(&self) -> bool {
        &&& self.key_functions_sound()
        &&& self.row_functions_sound()
        &&& self.codec_sound()
    }

    /// The functions on group keys are sound.
    pub open spec fn key_functions_sound(&self) -> bool {
        &&& forall|v: &Value| #[trigger] self.fragment.requires((v,))
        &&& forall|v: &Value, a: String, w: &Value, b: String|
            #![trigger self.fragment.ensures((v,), a), self.fragment.ensures((w,), b)]
            self.fragment.ensures((v,), a) && self.fragment.ensures((w,), b) && v@ == w@ ==> a@
                == b@
        &&& forall|v: &Vec<String>| #[trigger] self.join_key.requires((v,))
        &&& forall|v: &Vec<String>, a: String, w: &Vec<String>, b: String|
            #![trigger self.join_key.ensures((v,), a), self.join_key.ensures((w,), b)]
            self.join_key.ensures((v,), a) && self.join_key.ensures((w,), b) && text::names(v@)
                == text::names(w@) ==> a@ == b@
        &&& forall|v: &str| #[trigger] self.split_key.requires((v,))
        &&& forall|v: &str, a: Vec<String>, w: &str, b: Vec<String>|
            #![trigger self.split_key.ensures((v,), a), self.split_key.ensures((w,), b)]
            self.split_key.ensures((v,), a) && self.split_key.ensures((w,), b) && v@ == w@
                ==> text::names(a@) == text::names(b@)
    }

    /// The functions on rows are sound.
    pub open spec fn row_functions_sound(&self) -> bool {
        &&& forall|v: &str| #[trigger] self.fragment_value.requires((v,))
        &&& forall|v: &str, a: Value, w: &str, b: Value|
            #![trigger self.fragment_value.ensures((v,), a), self.fragment_value.ensures((w,), b)]
            self.fragment_value.ensures((v,), a) && self.fragment_value.ensures((w,), b) && v@
                == w@ ==> a@ == b@
        &&& forall|s: &AggregateState| #[trigger] self.results.requires((s,))
        &&& forall|
            s: &AggregateState,
            a: Vec<(String, Value)>,
            t: &AggregateState,
            b: Vec<(String, Value)>,
        |
            #![trigger self.results.ensures((s,), a), self.results.ensures((t,), b)]
            self.results.ensures((s,), a) && self.results.ensures((t,), b) && s@ == t@
                ==> named_values(a@) == named_values(b@)
        &&& forall|v: &Value| #[trigger] self.show.requires((v,))
        &&& forall|v: &Value, a: String, w: &Value, b: String|
            #![trigger self.show.ensures((v,), a), self.show.ensures((w,), b)]
            self.show.ensures((v,), a) && self.show.ensures((w,), b) && v@ == w@ ==> a@ == b@
    }

    /// The functions on bytes are sound.
    pub open spec fn codec_sound(&self) -> bool {
        &&& forall|s: &AggregateState| #[trigger] self.encode.requires((s,))
        &&& forall|s: &AggregateState, a: Vec<u8>, t: &AggregateState, b: Vec<u8>|
            #![trigger self.encode.ensures((s,), a), self.encode.ensures((t,), b)]
            self.encode.ensures((s,), a) && self.encode.ensures((t,), b) && s@ == t@ ==> a@ == b@
        &&& forall|x: &[u8]| #[trigger] self.decode.requires((x,))
        &&& forall|x: &[u8], a: Option<AggregateState>, y: &[u8], b: Option<AggregateState>|
            #![trigger self.decode.ensures((x,), a), self.decode.ensures((y,), b)]
            self.decode.ensures((x,), a) && self.decode.ensures((y,), b) && x@ == y@ ==> opt_state(
                a,
            ) == opt_state(b)
    }

    /// `t` may be the text of the value in a group key.
    pub open spec fn is_fragment(&self, v: ValueV, t: Seq<char>) -> bool {
        exists|w: &Value, a: String| w@ == v && a@ == t && #[trigger] self.fragment.ensures((w,), a)
    }

    /// The text of a value in a group key.
    pub open spec fn fragment_of(&self, v: ValueV) -> Seq<char> {
        choose|t: Seq<char>| self.is_fragment(v, t)
    }

    /// `k` may be the group key of the texts.
    pub open spec fn is_joined(&self, parts: Seq<Seq<char>>, k: Seq<char>) -> bool {
        exists|w: &Vec<String>, a: String|
            text::names(w@) == parts && a@ == k && #[trigger] self.join_key.ensures((w,), a)
    }

    /// The group key of texts.
    pub open spec fn joined(&self, parts: Seq<Seq<char>>) -> Seq<char> {
        choose|k: Seq<char>| self.is_joined(parts, k)
    }

    /// `parts` may be the texts of the group key.
    pub open spec fn is_split(&self, k: Seq<char>, parts: Seq<Seq<char>>) -> bool {
        exists|w: &str, a: Vec<String>|
            w@ == k && text::names(a@) == parts && #[trigger] self.split_key.ensures((w,), a)
    }

    /// The texts of a group key.
    pub open spec fn split(&self, k: Seq<char>) -> Seq<Seq<char>> {
        choose|parts: Seq<Seq<char>>| self.is_split(k, parts)
    }

    /// `v` may be the value of the text.
    pub open spec fn is_fragment_value(&self, t: Seq<char>, v: ValueV) -> bool {
        exists|w: &str, a: Value| w@ == t && a@ == v && #[trigger] self.fragment_value.ensures((w,), a)
    }

    /// The value of a text of a group key.
    pub open spec fn fragment_value_of(&self, t: Seq<char>) -> ValueV {
        choose|v: ValueV| self.is_fragment_value(t, v)
    }

    /// `r` may be the metrics of the state.
    pub open spec fn is_results(&self, s: AggregateStateV, r: Seq<(Seq<char>, ValueV)>) -> bool {
        exists|t: &AggregateState, a: Vec<(String, Value)>|
            t@ == s && named_values(a@) == r && #[trigger] self.results.ensures((t,), a)
    }

    /// The metrics of a state.
    pub open spec fn results_of(&self, s: AggregateStateV) -> Seq<(Seq<char>, ValueV)> {
        choose|r: Seq<(Seq<char>, ValueV)>| self.is_results(s, r)
    }

    /// The value may read so.
    pub open spec fn is_shown(&self, v: ValueV, t: Seq<char>) -> bool {
        exists|w: &Value, a: String| w@ == v && a@ == t && #[trigger] self.show.ensures((w,), a)
    }

    /// How a value reads.
    pub open spec fn shown(&self, v: ValueV) -> Seq<char> {
        choose|t: Seq<char>| self.is_shown(v, t)
    }

    /// `b` may be the bytes of the state.
    pub open spec fn is_encoded(&self, s: AggregateStateV, b: Seq<u8>) -> bool {
        exists|t: &AggregateState, a: Vec<u8>|
            t@ == s && a@ == b && #[trigger] self.encode.ensures((t,), a)
    }

    /// The bytes of a state.
    pub open spec fn encoded(&self, s: AggregateStateV) -> Seq<u8> {
        choose|b: Seq<u8>| self.is_encoded(s, b)
    }

    /// `s` may be the state of the bytes.
    pub open spec fn is_decoded(&self, b: Seq<u8>, s: Option<AggregateStateV>) -> bool {
        exists|x: &[u8], a: Option<AggregateState>|
            x@ == b && opt_state(a) == s && #[trigger] self.decode.ensures((x,), a)
    }

    /// The state of bytes.
    pub open spec fn decoded(&self, b: Seq<u8>) -> Option<AggregateStateV> {
        choose|s: Option<AggregateStateV>| self.is_decoded(b, s)
    }

    /// The text of a value in a group key.
    pub fn make_fragment(&self, v: &Value) -> (r: String)
        requires
            self.sound(),
        ensures
            r@ == self.fragment_of(v@),
    {
        let r = (self.fragment)(v);
        assert(self.is_fragment(v@, r@));
        r
    }

    /// The group key of texts.
    pub fn encode_group_key(&self, parts: &Vec<String>) -> (r: String)
        requires
            self.sound(),
        ensures
            r@ == self.joined(text::names(parts@)),
    {
        let r = (self.join_key)(parts);
        assert(self.is_joined(text::names(parts@), r@));
        r
    }

    /// The texts of a group key.
    pub fn decode_group_key(&self, k: &str) -> (r: Vec<String>)
        requires
            self.sound(),
        ensures
            text::names(r@) == self.split(k@),
    {
        let r = (self.split_key)(k);
        assert(self.is_split(k@, text::names(r@)));
        r
    }

    fn make_fragment_value(&self, t: &str) -> (r: Value)
        requires
            self.sound(),
        ensures
            r@ == self.fragment_value_of(t@),
    {
        let r = (self.fragment_value)(t);
        assert(self.is_fragment_value(t@, r@));
        r
    }

    fn make_results(&self, s: &AggregateState) -> (r: Vec<(String, Value)>)
        requires
            self.sound(),
        ensures
            named_values(r@) == self.results_of(s@),
    {
        let r = (self.results)(s);
        assert(self.is_results(s@, named_values(r@)));
        r
    }

    fn show_value(&self, v: &Value) -> (r: String)
        requires
            self.sound(),
        ensures
            r@ == self.shown(v@),
    {
        let r = (self.show)(v);
        assert(self.is_shown(v@, r@));
        r
    }

    fn encode_state(&self, s: &AggregateState) -> (r: Vec<u8>)
        requires
            self.sound(),
        ensures
            r@ == self.encoded(s@),
    {
        let r = (self.encode)(s);
        assert(self.is_encoded(s@, r@));
        r
    }

    /// The state of bytes.
    pub fn decode_state(&self, b: &[u8]) -> (r: Option<AggregateState>)
        requires
            self.sound(),
        ensures
            opt_state(r) == self.decoded(b@),
    {
        let r = (self.decode)(b);
        assert(self.is_decoded(b@, opt_state(r)));
        r
    }

    /// The group fields of a row, as far as the group key has texts for them.
    pub open spec fn group_pairs(
        &self,
        group_fields: Seq<Seq<char>>,
        parts: Seq<Seq<char>>,
        n: nat,
    ) -> Seq<(Seq<char>, ValueV)> {
        Seq::new(n, |i: int| (group_fields[i], self.fragment_value_of(parts[i])))
    }

    /// The named values of a row: its group fields, then its metrics.
    pub open spec fn row_pairs(
        &self,
        group_fields: Seq<Seq<char>>,
        gk: Seq<char>,
        s: AggregateStateV,
    ) -> Seq<(Seq<char>, ValueV)> {
        let parts = self.split(gk);
        self.group_pairs(
            group_fields,
            parts,
            if group_fields.len() <= parts.len() {
                group_fields.len()
            } else {
                parts.len()
            },
        ) + self.results_of(s)
    }

    /// The row of a group; a metric takes the place of a group field of the
    /// same name.
    pub open spec fn row_of(
        &self,
        group_fields: Seq<Seq<char>>,
        gk: Seq<char>,
        s: AggregateStateV,
    ) -> Map<Seq<char>, ValueV> {
        ghost_ops::inserted(self.row_pairs(group_fields, gk, s))
    }

    /// The row of a group.
    pub fn group_state_to_row(
        &self,
        group_fields: &[String],
        gk: &str,
        state: &AggregateState,
    ) -> (r: Fields)
        requires
            self.sound(),
        ensures
            record::fields_view(r@) == self.row_of(text::names(group_fields@), gk@, state@),
    {
        let ghost names = text::names(group_fields@);
        let mut row: Fields = SortedMap::new();
        let parts = self.decode_group_key(gk);
        let ghost pv = text::names(parts@);
        let ghost mut pairs: Seq<(Seq<char>, ValueV)> = Seq::empty();
        let mut i: usize = 0;
        assert(record::fields_view(row@) =~= Map::<Seq<char>, ValueV>::empty());
        while i < group_fields.len() && i < parts.len()
            invariant
                i <= group_fields@.len(),
                i <= parts@.len(),
                self.sound(),
                names == text::names(group_fields@),
                pv == text::names(parts@),
                pairs == self.group_pairs(names, pv, i as nat),
                record::fields_view(row@) == ghost_ops::inserted(pairs),
            decreases group_fields@.len() - i,
        {
            let v = self.make_fragment_value(parts[i].as_str());
            let ghost before = record::fields_view(row@);
            let ghost next = pairs.push((names[i as int], v@));
            row.insert(group_fields[i].clone(), v);
            proof {
                assert(record::fields_view(row@) =~= before.insert(names[i as int], v@));
                assert(next.drop_last() =~= pairs);
                assert(next =~= self.group_pairs(names, pv, (i + 1) as nat));
                pairs = next;
            }
            i = i + 1;
        }
        let ghost head = pairs;
        let results = self.make_results(state);
        let ghost rv = named_values(results@);
        let mut j: usize = 0;
        assert(head + rv.take(0) =~= head);
        while j < results.len()
            invariant
                j <= results@.len(),
                rv == named_values(results@),
                record::fields_view(row@) == ghost_ops::inserted(head + rv.take(j as int)),
            decreases results@.len() - j,
        {
            let ghost before = record::fields_view(row@);
            let ghost next = head + rv.take(j + 1);
            row.insert(results[j].0.clone(), results[j].1.clone_value());
            proof {
                assert(next.drop_last() =~= head + rv.take(j as int));
                assert(next.last() == rv[j as int]);
                assert(record::fields_view(row@) =~= before.insert(
                    rv[j as int].0,
                    rv[j as int].1,
                ));
            }
            j = j + 1;
        }
        assert(rv.take(j as int) =~= rv);
        row
    }

    /// The text that breaks ties between rows: its group fields as they read,
    /// joined by a bar.
    pub open spec fn tiebreak_of(
        &self,
        group_fields: Seq<Seq<char>>,
        row: Map<Seq<char>, ValueV>,
    ) -> Seq<char> {
        text::joined(
            Seq::new(
                group_fields.len(),
                |i: int|
                    if row.contains_key(group_fields[i]) {
                        self.shown(row[group_fields[i]])
                    } else {
                        Seq::empty()
                    },
            ),
            "|"@,
        )
    }

    /// The text that breaks ties between rows.
    pub fn top_tiebreak_key(&self, group_fields: &[String], row: &Fields) -> (r: String)
        requires
            self.sound(),
        ensures
            r@ == self.tiebreak_of(text::names(group_fields@), record::fields_view(row@)),
    {
        let ghost names = text::names(group_fields@);
        let ghost rv = record::fields_view(row@);
        let mut parts: Vec<String> = Vec::new();
        let mut i: usize = 0;
        while i < group_fields.len()
            invariant
                i <= group_fields@.len(),
                parts@.len() == i,
                self.sound(),
                names == text::names(group_fields@),
                rv == record::fields_view(row@),
                forall|j: int|
                    0 <= j < i ==> (#[trigger] parts@[j])@ == if rv.contains_key(names[j]) {
                        self.shown(rv[names[j]])
                    } else {
                        Seq::<char>::empty()
                    },
            decreases group_fields@.len() - i,
        {
            match row.get(group_fields[i].as_str()) {
                Some(v) => {
                    let t = self.show_value(v);
                    parts.push(t);
                },
                None => {
                    let t = String::new();
                    parts.push(t);
                },
            }
            i = i + 1;
        }
        proof {
            assert(text::names(parts@) =~= Seq::new(
                names.len(),
                |i: int|
                    if rv.contains_key(names[i]) {
                        self.shown(rv[names[i]])
                    } else {
                        Seq::empty()
                    },
            ));
        }
        text::join_all(parts.as_slice(), "|")
    }

    /// The entry of a group in the order of a metric.
    pub open spec fn ordered_entry(
        &self,
        ghost_id: u16,
        group_fields: Seq<Seq<char>>,
        order: MetricOrderV,
        gk: Seq<char>,
        s: AggregateStateV,
    ) -> (Seq<u8>, Seq<u8>) {
        let row = self.row_of(group_fields, gk, s);
        (
            ghost_keys::metric_key_bytes(
                ghost_id,
                metric_of(row, order.label),
                order.descending,
                self.tiebreak_of(group_fields, row),
            ),
            ghost_keys::entry_value(gk, self.encoded(s)),
        )
    }

    /// The entries of groups in the order of a metric, one for each group with
    /// records.
    pub open spec fn ordered_entries(
        &self,
        ghost_id: u16,
        group_fields: Seq<Seq<char>>,
        order: MetricOrderV,
        groups: Seq<(Seq<char>, AggregateStateV)>,
    ) -> Seq<(Seq<u8>, Seq<u8>)>
        decreases groups.len(),
    {
        if groups.len() == 0 {
            Seq::empty()
        } else {
            let before = self.ordered_entries(ghost_id, group_fields, order, groups.drop_last());
            if groups.last().1.count > 0 {
                before.push(
                    self.ordered_entry(
                        ghost_id,
                        group_fields,
                        order,
                        groups.last().0,
                        groups.last().1,
                    ),
                )
            } else {
                before
            }
        }
    }

    /// The entries to be written for the groups of a ghost in the order of a
    /// metric, and whether no two of them have the same key. Two with the same
    /// key would leave one group out, so the order must then not be used.
    pub fn emit_metric_order(
        &self,
        ghost_id: u16,
        group_fields: &[String],
        order: &MetricOrder,
        groups: &Vec<(String, AggregateState)>,
    ) -> (r: (Vec<(Vec<u8>, Vec<u8>)>, bool))
        requires
            self.sound(),
        ensures
            byte_pairs(r.0@) == self.ordered_entries(
                ghost_id,
                text::names(group_fields@),
                order@,
                groups_view(groups@),
            ),
            r.1 == keys_distinct(byte_pairs(r.0@)),
    {
        let ghost names = text::names(group_fields@);
        let ghost gv = groups_view(groups@);
        let mut out: Vec<(Vec<u8>, Vec<u8>)> = Vec::new();
        let mut seen = ByteSet::new();
        let mut ok = true;
        let mut i: usize = 0;
        proof {
            assert(gv.take(0) =~= Seq::<(Seq<char>, AggregateStateV)>::empty());
            assert(byte_pairs(out@) =~= Seq::<(Seq<u8>, Seq<u8>)>::empty());
        }
        while i < groups.len()
            invariant
                i <= groups@.len(),
                self.sound(),
                names == text::names(group_fields@),
                gv == groups_view(groups@),
                byte_pairs(out@) == self.ordered_entries(
                    ghost_id,
                    names,
                    order@,
                    gv.take(i as int),
                ),
                ok == keys_distinct(byte_pairs(out@)),
                forall|k: Seq<u8>| #[trigger]
                    seen@.contains(k) <==> exists|j: int|
                        0 <= j < out@.len() && (#[trigger] out@[j]).0@ == k,
            decreases groups@.len() - i,
        {
            let g = &groups[i];
            proof {
                assert(gv.take(i + 1).drop_last() =~= gv.take(i as int));
                assert(gv.take(i + 1).last() == (g.0@, g.1@));
            }
            if g.1.count > 0 {
                let row = self.group_state_to_row(group_fields, g.0.as_str(), &g.1);
                let metric: u64 = top_metric(&row, order.label.as_str());
                let tiebreak = self.top_tiebreak_key(group_fields, &row);
                let key = ghost_keys::metric_order_key(
                    ghost_id,
                    metric,
                    order.descending,
                    tiebreak.as_str(),
                );
                let value = ghost_keys::encode_value(
                    g.0.as_str(),
                    self.encode_state(&g.1).as_slice(),
                );
                let ghost before = out@;
                let ghost kv = key@;
                let copy = key.clone();
                let ghost seen_before = seen@;
                let fresh = seen.insert(copy);
                let ghost ok_before = ok;
                if !fresh {
                    ok = false;
                }
                let ghost entry = (kv, value@);
                out.push((key, value));
                proof {
                    assert(byte_pairs(out@) =~= byte_pairs(before).push(entry));
                    lemma_distinct_push(byte_pairs(before), entry);
                    assert(fresh <==> !exists|j: int|
                        0 <= j < before.len() && (#[trigger] before[j]).0@ == kv);
                    assert((exists|j: int|
                        0 <= j < before.len() && (#[trigger] before[j]).0@ == kv) <==> exists|
                        j: int,
                    |
                        0 <= j < before.len() && (#[trigger] byte_pairs(before)[j]).0 == kv) by {
                        if exists|j: int| 0 <= j < before.len() && (#[trigger] before[j]).0@ == kv {
                            let j = choose|j: int|
                                0 <= j < before.len() && (#[trigger] before[j]).0@ == kv;
                            assert(byte_pairs(before)[j].0 == kv);
                        }
                        if exists|j: int|
                            0 <= j < before.len() && (#[trigger] byte_pairs(before)[j]).0 == kv {
                            let j = choose|j: int|
                                0 <= j < before.len() && (#[trigger] byte_pairs(before)[j]).0 == kv;
                            assert(before[j].0@ == kv);
                        }
                    }
                    assert forall|k: Seq<u8>| #[trigger] seen@.contains(k) <==> exists|j: int|
                        0 <= j < out@.len() && (#[trigger] out@[j]).0@ == k by {
                        if seen_before.contains(k) {
                            let j = choose|j: int|
                                0 <= j < before.len() && (#[trigger] before[j]).0@ == k;
                            assert(out@[j].0@ == k);
                        }
                        if k == kv {
                            assert(out@[before.len() as int].0@ == k);
                        }
                        if exists|j: int| 0 <= j < out@.len() && (#[trigger] out@[j]).0@ == k {
                            let j = choose|j: int|
                                0 <= j < out@.len() && (#[trigger] out@[j]).0@ == k;
                            if j < before.len() {
                                assert(before[j].0@ == k);
                            }
                        }
                    }
                }
            }
            i = i + 1;
        }
        assert(gv.take(i as int) =~= gv);
        (out, ok)
    }

    /// The group and state that a rollup's entry holds.
    pub open spec fn rollup_group(&self, key: Seq<u8>, val: Seq<u8>) -> Option<
        (Seq<char>, AggregateStateV),
    > {
        match ghost_keys::key_group(key) {
            Some(gk) => match self.decoded(val) {
                Some(s) => Some((gk, s)),
                None => None,
            },
            None => None,
        }
    }

    /// The group and state that a rollup's entry holds, or `None` for one that
    /// is malformed.
    pub fn read_rollup(&self, key: &[u8], val: &[u8]) -> (r: Option<(String, AggregateState)>)
        requires
            self.sound(),
        ensures
            match r {
                Some((gk, s)) => self.rollup_group(key@, val@) == Some((gk@, s@)),
                None => self.rollup_group(key@, val@) is None,
            },
    {
        match ghost_keys::rollup_key_group(key) {
            Some(gk) => match self.decode_state(val) {
                Some(s) => Some((gk, s)),
                None => None,
            },
            None => None,
        }
    }

    /// The row that a metric-ordered value holds.
    pub open spec fn ordered_row(&self, group_fields: Seq<Seq<char>>, val: Seq<u8>) -> Option<
        Map<Seq<char>, ValueV>,
    > {
        match ghost_keys::split_value(val) {
            Some((gk, b)) => match self.decoded(b) {
                Some(s) => Some(self.row_of(group_fields, gk, s)),
                None => None,
            },
            None => None,
        }
    }

    /// The row that a metric-ordered value holds, or `None` for one that is
    /// malformed.
    pub fn read_ordered_row(&self, group_fields: &[String], val: &[u8]) -> (r: Option<Fields>)
        requires
            self.sound(),
        ensures
            match r {
                Some(row) => self.ordered_row(text::names(group_fields@), val@) == Some(
                    record::fields_view(row@),
                ),
                None => self.ordered_row(text::names(group_fields@), val@) is None,
            },
    {
        match ghost_keys::decode_value(val) {
            Some((gk, b)) => match self.decode_state(b.as_slice()) {
                Some(s) => Some(self.group_state_to_row(group_fields, gk.as_str(), &s)),
                None => None,
            },
            None => None,
        }
    }

    /// The rows that values hold, in order, without the malformed ones.
    pub open spec fn ordered_rows(
        &self,
        group_fields: Seq<Seq<char>>,
        vals: Seq<Seq<u8>>,
    ) -> Seq<Map<Seq<char>, ValueV>>
        decreases vals.len(),
    {
        if vals.len() == 0 {
            Seq::empty()
        } else {
            let before = self.ordered_rows(group_fields, vals.drop_last());
            match self.ordered_row(group_fields, vals.last()) {
                Some(row) => before.push(row),
                None => before,
            }
        }
    }

    /// The rows of the first `n` entries of a ghost in the order of its metric.
    /// `vals` are the values of the entries in the order of their keys.
    pub fn read_topn(&self, group_fields: &[String], vals: &Vec<Vec<u8>>, n: usize) -> (r: Vec<
        Fields,
    >)
        requires
            self.sound(),
        ensures
            rows_view(r@) == self.ordered_rows(
                text::names(group_fields@),
                byte_strings(vals@).take(at_most(n as int, vals@.len() as int)),
            ),
    {
        let ghost names = text::names(group_fields@);
        let ghost vv = byte_strings(vals@);
        let mut rows: Vec<Fields> = Vec::new();
        let mut i: usize = 0;
        proof {
            assert(vv.take(0) =~= Seq::<Seq<u8>>::empty());
            assert(rows_view(rows@) =~= Seq::<Map<Seq<char>, ValueV>>::empty());
        }
        while i < vals.len() && i < n
            invariant
                i <= vals@.len(),
                i <= n,
                self.sound(),
                names == text::names(group_fields@),
                vv == byte_strings(vals@),
                rows_view(rows@) == self.ordered_rows(names, vv.take(i as int)),
            decreases vals@.len() - i,
        {
            assert(vv.take(i + 1).drop_last() =~= vv.take(i as int));
            assert(vv.take(i + 1).last() == vals@[i as int]@);
            let ghost before = rows@;
            match self.read_ordered_row(group_fields, vals[i].as_slice()) {
                Some(row) => {
                    let ghost rv = record::fields_view(row@);
                    rows.push(row);
                    assert(rows_view(rows@) =~= rows_view(before).push(rv));
                },
                None => {},
            }
            i = i + 1;
        }
        rows
    }

    /// A metric-ordered entry gives its group's row back, where the group key
    /// fits and the state can be read from its bytes.
    pub proof fn law_ordered_entry_gives_row(
        &self,
        ghost_id: u16,
        group_fields: Seq<Seq<char>>,
        order: MetricOrderV,
        gk: Seq<char>,
        s: AggregateStateV,
    )
        requires
            utf8::encode_utf8(gk).len() <= ghost_keys::MAX_GROUP_KEY,
            self.decoded(self.encoded(s)) == Some(s),
        ensures
            self.ordered_row(
                group_fields,
                self.ordered_entry(ghost_id, group_fields, order, gk, s).1,
            ) == Some(self.row_of(group_fields, gk, s)),
    {
        ghost_keys::law_entry_value_round_trip(gk, self.encoded(s));
    }

    /// The row ranks ahead: by its metric in the requested direction, and among
    /// equal metrics by the text of its group.
    pub open spec fn row_ahead(
        &self,
        group_fields: Seq<Seq<char>>,
        order: MetricOrderV,
        a: Map<Seq<char>, ValueV>,
        b: Map<Seq<char>, ValueV>,
    ) -> bool {
        ghost_keys::group_ahead(
            metric_of(a, order.label),
            self.tiebreak_of(group_fields, a),
            metric_of(b, order.label),
            self.tiebreak_of(group_fields, b),
            order.descending,
        )
    }

    /// The entries of two groups lie in the order in which their rows rank, so
    /// the first entries of a ghost are its best groups.
    pub proof fn law_entries_lie_as_rows_rank(
        &self,
        ghost_id: u16,
        group_fields: Seq<Seq<char>>,
        order: MetricOrderV,
        g: (Seq<char>, AggregateStateV),
        h: (Seq<char>, AggregateStateV),
    )
        ensures
            bytes::lex_lt(
                self.ordered_entry(ghost_id, group_fields, order, g.0, g.1).0,
                self.ordered_entry(ghost_id, group_fields, order, h.0, h.1).0,
            ) <==> self.row_ahead(
                group_fields,
                order,
                self.row_of(group_fields, g.0, g.1),
                self.row_of(group_fields, h.0, h.1),
            ),
    {
        let a = self.row_of(group_fields, g.0, g.1);
        let b = self.row_of(group_fields, h.0, h.1);
        ghost_keys::law_metric_key_order(
            ghost_id,
            metric_of(a, order.label),
            self.tiebreak_of(group_fields, a),
            metric_of(b, order.label),
            self.tiebreak_of(group_fields, b),
            order.descending,
        );
    }
}

/// What groups stand for.
pub open spec fn groups_view(s: Seq<(String, AggregateState)>) -> Seq<
    (Seq<char>, AggregateStateV),
> {
    s.map_values(|g: (String, AggregateState)| (g.0@, g.1@))
}

/// What pairs of byte strings are.
pub open spec fn byte_pairs(s: Seq<(Vec<u8>, Vec<u8>)>) -> Seq<(Seq<u8>, Seq<u8>)> {
    s.map_values(|p: (Vec<u8>, Vec<u8>)| (p.0@, p.1@))
}

/// What byte strings are.
pub open spec fn byte_strings(s: Seq<Vec<u8>>) -> Seq<Seq<u8>> {
    s.map_values(|b: Vec<u8>| b@)
}

/// What rows stand for.
pub open spec fn rows_view(s: Seq<Fields>) -> Seq<Map<Seq<char>, ValueV>> {
    s.map_values(|f: Fields| record::fields_view(f@))
}

/// The smaller of the two.
pub open spec fn at_most(a: int, b: int) -> int {
    if a <= b {
        a
    } else {
        b
    }
}

/// No two entries have the same key.
pub open spec fn keys_distinct(s: Seq<(Seq<u8>, Seq<u8>)>) -> bool {
    forall|i: int, j: int| 0 <= i < j < s.len() ==> (#[trigger] s[i]).0 != (#[trigger] s[j]).0
}

proof fn lemma_distinct_push(s: Seq<(Seq<u8>, Seq<u8>)>, e: (Seq<u8>, Seq<u8>))
    ensures
        keys_distinct(s.push(e)) <==> keys_distinct(s) && !exists|j: int|
            0 <= j < s.len() && (#[trigger] s[j]).0 == e.0,
{
    let t = s.push(e);
    if keys_distinct(t) {
        assert forall|i: int, j: int| 0 <= i < j < s.len() implies (#[trigger] s[i]).0 != (
        #[trigger] s[j]).0 by {
            assert(t[i] == s[i] && t[j] == s[j]);
        }
        assert forall|j: int| 0 <= j < s.len() implies (#[trigger] s[j]).0 != e.0 by {
            assert(t[j] == s[j] && t[s.len() as int] == e);
        }
    }
    if keys_distinct(s) && !exists|j: int| 0 <= j < s.len() && (#[trigger] s[j]).0 == e.0 {
        assert forall|i: int, j: int| 0 <= i < j < t.len() implies (#[trigger] t[i]).0 != (
        #[trigger] t[j]).0 by {
            assert(t[i] == s[i]);
            if j < s.len() {
                assert(t[j] == s[j]);
            }
        }
    }
}

/// The metric that a row is ranked by: one that is missing or no number ranks
/// below every number.
pub open spec fn metric_of(row: Map<Seq<char>, ValueV>, label: Seq<char>) -> u64 {
    if row.contains_key(label) {
        match value::number(row[label]) {
            Some(n) => n,
            None => float::NEG_INFINITY_BITS,
        }
    } else {
        float::NEG_INFINITY_BITS
    }
}

/// The metric that a row is ranked by, as the bits of a double.
pub fn top_metric(row: &Fields, label: &str) -> (r: u64)
    ensures
        r == metric_of(record::fields_view(row@), label@),
{
    match row.get(label) {
        Some(v) => match value::numeric_value(v) {
            Some(n) => n,
            None => float::NEG_INFINITY_BITS,
        },
        None => float::NEG_INFINITY_BITS,
    }
}

/// The groups of a map, in order.
pub fn groups_of(m: &Summaries) -> (r: Vec<(String, AggregateState)>)
    ensures
        forall|i: int, j: int|
            0 <= i < j < r@.len() ==> bytes::str_lt(
                (#[trigger] r@[i]).0@,
                (#[trigger] r@[j]).0@,
            ),
        forall|k: Seq<char>| #[trigger]
            m@.contains_key(k) <==> exists|i: int| 0 <= i < r@.len() && (#[trigger] r@[i]).0@ == k,
        forall|i: int|
            0 <= i < r@.len() ==> (#[trigger] r@[i]).1@ == m@[r@[i].0@]@,
{
    proof {
        use_type_invariant(m);
        m.lemma_listed();
    }
    let ghost listed = m.listed();
    let mut r: Vec<(String, AggregateState)> = Vec::new();
    let mut i: usize = 0;
    while i < m.len()
        invariant
            i <= listed.len(),
            listed == m.listed(),
            r@.len() == i,
            forall|j: int|
                0 <= j < i ==> (#[trigger] r@[j]).0@ == listed[j].0@ && r@[j].1@ == listed[j].1@,
        decreases listed.len() - i,
    {
        r.push((m.name_at(i).clone(), m.value_at(i).clone_state()));
        i = i + 1;
    }
    proof {
        assert forall|a: int, b: int| 0 <= a < b < r@.len() implies bytes::str_lt(
            (#[trigger] r@[a]).0@,
            (#[trigger] r@[b]).0@,
        ) by {
            assert(bytes::str_lt(listed[a].0@, listed[b].0@));
        }
        assert forall|k: Seq<char>| #[trigger] m@.contains_key(k) <==> exists|i: int|
            0 <= i < r@.len() && (#[trigger] r@[i]).0@ == k by {
            if m@.contains_key(k) {
                let j = choose|j: int| sorted_map::holds_at(listed, k, j);
                assert(r@[j].0@ == k);
            }
            if exists|i: int| 0 <= i < r@.len() && (#[trigger] r@[i]).0@ == k {
                let j = choose|j: int| 0 <= j < r@.len() && (#[trigger] r@[j]).0@ == k;
                sorted_map::lemma_entry_in_map(listed, j);
            }
        }
        assert forall|j: int| 0 <= j < r@.len() implies (#[trigger] r@[j]).1@ == m@[r@[j].0@]@ by {
            sorted_map::lemma_entry_in_map(listed, j);
        }
    }
    r
}

impl<
    FT: Fn(&Value) -> String,
    EK: Fn(&Vec<String>) -> String,
    PT: Fn(&str) -> Vec<String>,
    FV: Fn(&str) -> Value,
    RS: Fn(&AggregateState) -> Vec<(String, Value)>,
    SH: Fn(&Value) -> String,
    EN: Fn(&AggregateState) -> Vec<u8>,
    DE: Fn(&[u8]) -> Option<AggregateState>,
> RowOps<FT, EK, PT, FV, RS, SH, EN, DE> {
    /// Group keys, metrics and states are what the storage layer makes of them.
    pub proof fn law_rows_are_handed_in(
        &self,
        v: &Value,
        fragment: String,
        parts: &Vec<String>,
        key: String,
        k: &str,
        split: Vec<String>,
        part: Value,
        s: &AggregateState,
        results: Vec<(String, Value)>,
        shown: String,
        bytes: Vec<u8>,
        b: &[u8],
        read: Option<AggregateState>,
    )
        requires
            self.sound(),
            self.fragment.ensures((v,), fragment),
            self.join_key.ensures((parts,), key),
            self.split_key.ensures((k,), split),
            self.fragment_value.ensures((k,), part),
            self.results.ensures((s,), results),
            self.show.ensures((v,), shown),
            self.encode.ensures((s,), bytes),
            self.decode.ensures((b,), read),
        ensures
            self.fragment_of(v@) == fragment@,
            self.joined(text::names(parts@)) == key@,
            self.split(k@) == text::names(split@),
            self.fragment_value_of(k@) == part@,
            self.results_of(s@) == named_values(results@),
            self.shown(v@) == shown@,
            self.encoded(s@) == bytes@,
            self.decoded(b@) == opt_state(read),
    {
        assert(self.is_fragment(v@, fragment@));
        assert(self.is_joined(text::names(parts@), key@));
        assert(self.is_split(k@, text::names(split@)));
        assert(self.is_fragment_value(k@, part@));
        assert(self.is_results(s@, named_values(results@)));
        assert(self.is_shown(v@, shown@));
        assert(self.is_encoded(s@, bytes@));
        assert(self.is_decoded(b@, opt_state(read)));
    }

    /// The row of a group shows each metric of its state under the metric's name, and
    /// each group field that is no metric's name as the text in the group key says it.
    pub proof fn law_row_shows_group_and_metrics(
        &self,
        group_fields: Seq<Seq<char>>,
        gk: Seq<char>,
        s: AggregateStateV,
        i: int,
    )
        ensures
            ({
                let row = self.row_of(group_fields, gk, s);
                let m = self.results_of(s);
                &&& 0 <= i < m.len() && (forall|j: int|
                    i < j < m.len() ==> (#[trigger] m[j]).0 != m[i].0) ==> row.contains_key(m[i].0)
                    && row[m[i].0] == m[i].1
                &&& 0 <= i < group_fields.len() && i < self.split(gk).len() && (forall|j: int|
                    i < j < group_fields.len() ==> #[trigger] group_fields[j] != group_fields[i])
                    && (forall|j: int|
                    0 <= j < m.len() ==> (#[trigger] m[j]).0 != group_fields[i])
                    ==> row.contains_key(group_fields[i]) && row[group_fields[i]]
                    == self.fragment_value_of(self.split(gk)[i])
            }),
    {
        let m = self.results_of(s);
        let parts = self.split(gk);
        let n: nat = if group_fields.len() <= parts.len() {
            group_fields.len()
        } else {
            parts.len()
        };
        let g = self.group_pairs(group_fields, parts, n);
        let pairs = self.row_pairs(group_fields, gk, s);
        assert(pairs == g + m);
        if 0 <= i < m.len() && (forall|j: int|
            i < j < m.len() ==> (#[trigger] m[j]).0 != m[i].0) {
            let at = g.len() + i;
            assert(pairs[at] == m[i]);
            assert forall|j: int| at < j < pairs.len() implies (#[trigger] pairs[j]).0
                != pairs[at].0 by {
                assert(pairs[j] == m[j - g.len()]);
            }
            lemma_inserted(pairs, at);
        }
        if 0 <= i < group_fields.len() && i < parts.len() && (forall|j: int|
            i < j < group_fields.len() ==> #[trigger] group_fields[j] != group_fields[i]) && (
        forall|j: int| 0 <= j < m.len() ==> (#[trigger] m[j]).0 != group_fields[i]) {
            assert(pairs[i] == g[i]);
            assert forall|j: int| i < j < pairs.len() implies (#[trigger] pairs[j]).0
                != pairs[i].0 by {
                if j < g.len() {
                    assert(pairs[j] == g[j]);
                    assert(group_fields[j] != group_fields[i]);
                } else {
                    assert(pairs[j] == m[j - g.len()]);
                }
            }
            lemma_inserted(pairs, i);
        }
    }
}

proof fn lemma_inserted(pairs: Seq<(Seq<char>, ValueV)>, i: int)
    requires
        0 <= i < pairs.len(),
        forall|j: int| i < j < pairs.len() ==> (#[trigger] pairs[j]).0 != pairs[i].0,
    ensures
        ghost_ops::inserted(pairs).contains_key(pairs[i].0),
        ghost_ops::inserted(pairs)[pairs[i].0] == pairs[i].1,
    decreases pairs.len(),
{
    let d = pairs.drop_last();
    if i < d.len() {
        assert forall|j: int| i < j < d.len() implies (#[trigger] d[j]).0 != d[i].0 by {
            assert(d[j] == pairs[j]);
        }
        assert(d[i] == pairs[i]);
        assert(pairs[pairs.len() - 1].0 != pairs[i].0);
        lemma_inserted(d, i);
    }
}

} // verus!
