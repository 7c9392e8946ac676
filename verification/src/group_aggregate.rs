//! Aggregation for each group of records.

use crate::aggregate;
use crate::aggregate::{AggAccumulator, AggOps, Aggregate, AggregateV};
use crate::ast::FilterExpr;
use crate::bytes;
use crate::filter;
use crate::record;
use crate::record::{Fields, FilterOp, Record, RecordV};
use crate::selection;
use crate::sorted_map;
use crate::sorted_map::SortedMap;
use crate::text;
use crate::value::{Value, ValueV};
use vstd::prelude::*;

verus! {

impl<
    L: Fn(&Record, &(String, FilterOp, Value)) -> bool,
    P: Fn(&Fields, &str) -> Option<Value>,
    A: Fn(u64, u64) -> u64,
    S: Fn(&[u64]) -> u64,
    Q: Fn(u64, u64) -> u64,
    W: Fn(u64) -> String,
> AggOps<L, P, A, S, Q, W> {
    /// The text by which a value tells groups apart: a letter for its kind, and
    /// what it is, or for a compound value how long it is. An absent value is
    /// like a null.
    pub open spec fn key_text(&self, v: Option<ValueV>) -> Seq<char> {
        match v {
            None => "N"@,
            Some(ValueV::Null) => "N"@,
            Some(ValueV::Bool(b)) => if b {
                "B1"@
            } else {
                "B0"@
            },
            Some(ValueV::Int(n)) => "I"@ + text::decimal(n as int),
            Some(ValueV::Float(x)) => "F"@ + self.float_text(x),
            Some(ValueV::Text(s)) => "T"@ + s,
            Some(ValueV::Timestamp(t)) => "S"@ + text::decimal(t as int),
            Some(ValueV::Bytes(b)) => "X"@ + text::decimal(b.len() as int),
            Some(ValueV::List(l)) => "L"@ + text::decimal(l.len() as int),
            Some(ValueV::Object(m)) => "M"@ + text::decimal(m.len() as int),
            Some(ValueV::Vector(x)) => "V"@ + text::decimal(x.len() as int),
        }
    }

    /// The text by which a value tells groups apart.
    pub fn canonical_key(&self, v: Option<&Value>) -> (r: String)
        requires
            self.sound(),
        ensures
            r@ == self.key_text(crate::ghost_ops::opt_ref(v)),
    {
        match v {
            None => "N".to_owned(),
            Some(x) => match x {
                Value::Null => "N".to_owned(),
                Value::Bool(b) => if *b {
                    "B1".to_owned()
                } else {
                    "B0".to_owned()
                },
                Value::Int(n) => text::join2("I", text::decimal_text(*n as i128).as_str()),
                Value::Float(f) => {
                    let t = (self.show_float)(*f);
                    assert(self.is_float_text(*f, t@));
                    text::join2("F", t.as_str())
                },
                Value::Text(s) => text::join2("T", s.as_str()),
                Value::Timestamp(t) => text::join2("S", text::decimal_text(*t as i128).as_str()),
                Value::Bytes(b) => text::join2("X", text::decimal_text(b.len() as i128).as_str()),
                Value::List(l) => text::join2("L", text::decimal_text(l.len() as i128).as_str()),
                Value::Object(m) => text::join2("M", text::decimal_text(m.len() as i128).as_str()),
                Value::Vector(w) => text::join2("V", text::decimal_text(w.len() as i128).as_str()),
            },
        }
    }

    /// The texts of a record's group fields.
    pub open spec fn group_texts(&self, r: RecordV, fields: Seq<Seq<char>>) -> Seq<Seq<char>> {
        fields.map_values(|f: Seq<char>| self.key_text(self.value_at(r.fields, f)))
    }

    /// The key of a record's group.
    pub open spec fn group_key(&self, r: RecordV, fields: Seq<Seq<char>>) -> Seq<char> {
        text::joined(self.group_texts(r, fields), "|"@)
    }

    /// The values of a record's group fields, where it has them.
    pub open spec fn group_values(&self, r: RecordV, fields: Seq<Seq<char>>) -> Map<
        Seq<char>,
        ValueV,
    >
        decreases fields.len(),
    {
        if fields.len() == 0 {
            Map::empty()
        } else {
            let before = self.group_values(r, fields.drop_last());
            match self.value_at(r.fields, fields.last()) {
                Some(v) => before.insert(fields.last(), v),
                None => before,
            }
        }
    }

    /// The records of a group, in order.
    pub open spec fn members(&self, rs: Seq<RecordV>, fields: Seq<Seq<char>>, key: Seq<char>) -> Seq<
        RecordV,
    >
        decreases rs.len(),
    {
        if rs.len() == 0 {
            Seq::empty()
        } else if self.group_key(rs.last(), fields) == key {
            self.members(rs.drop_last(), fields, key).push(rs.last())
        } else {
            self.members(rs.drop_last(), fields, key)
        }
    }

    /// The row of a group: the group fields of its first record, and the metrics
    /// of all its records.
    pub open spec fn group_row(
        &self,
        rs: Seq<RecordV>,
        fields: Seq<Seq<char>>,
        metrics: Seq<AggregateV>,
        key: Seq<char>,
    ) -> Map<Seq<char>, ValueV> {
        let m = self.members(rs, fields, key);
        self.group_values(m[0], fields).union_prefer_right(self.metric_values(metrics, m))
    }

    fn make_group_key(&self, r: &Record, fields: &Vec<String>) -> (k: String)
        requires
            self.sound(),
        ensures
            k@ == self.group_key(r@, text::names(fields@)),
    {
        let ghost want = self.group_texts(r@, text::names(fields@));
        let mut parts: Vec<String> = Vec::new();
        let mut i: usize = 0;
        while i < fields.len()
            invariant
                self.sound(),
                i <= fields@.len(),
                want == self.group_texts(r@, text::names(fields@)),
                parts@.len() == i,
                forall|j: int| 0 <= j < i ==> (#[trigger] parts@[j])@ == want[j],
            decreases fields@.len() - i,
        {
            let v = self.resolve_path(&r.fields, fields[i].as_str());
            let t = match &v {
                Some(x) => self.canonical_key(Some(x)),
                None => self.canonical_key(None),
            };
            assert(text::names(fields@)[i as int] == fields@[i as int]@);
            parts.push(t);
            i = i + 1;
        }
        assert(text::names(parts@) =~= want);
        text::join_all(parts.as_slice(), "|")
    }

    fn make_group_values(&self, r: &Record, fields: &Vec<String>) -> (m: Fields)
        requires
            self.sound(),
        ensures
            record::fields_view(m@) == self.group_values(r@, text::names(fields@)),
    {
        let ghost fv = text::names(fields@);
        let mut m: Fields = SortedMap::new();
        let mut i: usize = 0;
        proof {
            assert(fv.take(0) =~= Seq::<Seq<char>>::empty());
            assert(record::fields_view(m@) =~= Map::<Seq<char>, ValueV>::empty());
        }
        while i < fields.len()
            invariant
                self.sound(),
                i <= fields@.len(),
                fv == text::names(fields@),
                record::fields_view(m@) == self.group_values(r@, fv.take(i as int)),
            decreases fields@.len() - i,
        {
            proof {
                assert(fv.take(i + 1).drop_last() =~= fv.take(i as int));
                assert(fv.take(i + 1).last() == fields@[i as int]@);
            }
            if let Some(v) = self.resolve_path(&r.fields, fields[i].as_str()) {
                let ghost before = record::fields_view(m@);
                let ghost vv = v@;
                m.insert(fields[i].clone(), v);
                assert(record::fields_view(m@) =~= before.insert(fields@[i as int]@, vv));
            }
            i = i + 1;
        }
        assert(fv.take(i as int) =~= fv);
        m
    }

    proof fn lemma_members_size(&self, rs: Seq<RecordV>, fields: Seq<Seq<char>>, key: Seq<char>)
        ensures
            self.members(rs, fields, key).len() <= rs.len(),
        decreases rs.len(),
    {
        if rs.len() > 0 {
            self.lemma_members_size(rs.drop_last(), fields, key);
        }
    }
}

/// One group: its fields and its metrics.
pub struct GroupSlot {
    row: Fields,
    acc: AggAccumulator,
}

/// The groups of the records seen so far.
pub struct GroupAccumulator {
    group_fields: Vec<String>,
    funcs: Vec<Aggregate>,
    groups: SortedMap<GroupSlot>,
    records: Ghost<Seq<RecordV>>,
}

/// Keys increase.
pub open spec fn keys_increase(keys: Seq<Seq<char>>) -> bool {
    forall|i: int, j: int|
        0 <= i < j < keys.len() ==> bytes::str_lt(#[trigger] keys[i], #[trigger] keys[j])
}

/// What rows stand for.
pub open spec fn rows_view(s: Seq<Fields>) -> Seq<Map<Seq<char>, ValueV>> {
    s.map_values(|f: Fields| record::fields_view(f@))
}

impl GroupAccumulator {
    /// The fields by which records are grouped.
    pub closed spec fn by(&self) -> Seq<Seq<char>> {
        text::names(self.group_fields@)
    }

    /// The metrics.
    pub closed spec fn metrics(&self) -> Seq<AggregateV> {
        aggregate::aggregates_view(self.funcs@)
    }

    /// The records so far.
    pub closed spec fn seen(&self) -> Seq<RecordV> {
        self.records@
    }

    /// Every group has its fields and has seen its records.
    pub closed spec fn tallies<
        L: Fn(&Record, &(String, FilterOp, Value)) -> bool,
        P: Fn(&Fields, &str) -> Option<Value>,
        A: Fn(u64, u64) -> u64,
        S: Fn(&[u64]) -> u64,
        Q: Fn(u64, u64) -> u64,
        W: Fn(u64) -> String,
    >(&self, ops: AggOps<L, P, A, S, Q, W>) -> bool {
        &&& aggregate::aggregates_bound(self.metrics())
        &&& forall|k: Seq<char>| #[trigger]
            self.groups@.contains_key(k) == (ops.members(self.seen(), self.by(), k).len() > 0)
        &&& forall|k: Seq<char>| #[trigger]
            self.groups@.contains_key(k) ==> {
                let m = ops.members(self.seen(), self.by(), k);
                let g = self.groups@[k];
                &&& record::fields_view(g.row@) == ops.group_values(m[0], self.by())
                &&& g.acc.metrics() == self.metrics()
                &&& g.acc.seen() == m
                &&& g.acc.tallies(ops)
            }
    }

    /// No record yet.
    pub fn new<
        L: Fn(&Record, &(String, FilterOp, Value)) -> bool,
        P: Fn(&Fields, &str) -> Option<Value>,
        A: Fn(u64, u64) -> u64,
        S: Fn(&[u64]) -> u64,
        Q: Fn(u64, u64) -> u64,
        W: Fn(u64) -> String,
    >(ops: &AggOps<L, P, A, S, Q, W>, group_fields: Vec<String>, funcs: Vec<Aggregate>) -> (r: Self)
        requires
            aggregate::aggregates_bound(aggregate::aggregates_view(funcs@)),
        ensures
            r.by() == text::names(group_fields@),
            r.metrics() == aggregate::aggregates_view(funcs@),
            r.seen() == Seq::<RecordV>::empty(),
            r.tallies(*ops),
    {
        GroupAccumulator {
            group_fields,
            funcs,
            groups: SortedMap::new(),
            records: Ghost(Seq::empty()),
        }
    }

    /// Lets the group of a record see it if the record passes a condition. Says
    /// whether it does.
    pub fn observe_if<
        L: Fn(&Record, &(String, FilterOp, Value)) -> bool,
        P: Fn(&Fields, &str) -> Option<Value>,
        A: Fn(u64, u64) -> u64,
        S: Fn(&[u64]) -> u64,
        Q: Fn(u64, u64) -> u64,
        W: Fn(u64) -> String,
    >(
        &mut self,
        ops: &AggOps<L, P, A, S, Q, W>,
        condition: &Option<FilterExpr>,
        rec: &Record,
    ) -> (passed: bool)
        requires
            ops.sound(),
            selection::bound(filter::opt_expr_view(*condition)),
            old(self).tallies(*ops),
            old(self).seen().len() < i64::MAX,
        ensures
            passed == ops.passes(filter::opt_expr_view(*condition), rec@),
            final(self).by() == old(self).by(),
            final(self).metrics() == old(self).metrics(),
            final(self).seen() == if passed {
                old(self).seen().push(rec@)
            } else {
                old(self).seen()
            },
            final(self).tallies(*ops),
    {
        let passed = selection::record_passes(&ops.matches, condition, rec);
        if passed {
            self.observe(ops, rec);
        }
        passed
    }

    /// Lets the group of a record see it.
    pub fn observe<
        L: Fn(&Record, &(String, FilterOp, Value)) -> bool,
        P: Fn(&Fields, &str) -> Option<Value>,
        A: Fn(u64, u64) -> u64,
        S: Fn(&[u64]) -> u64,
        Q: Fn(u64, u64) -> u64,
        W: Fn(u64) -> String,
    >(&mut self, ops: &AggOps<L, P, A, S, Q, W>, rec: &Record)
        requires
            ops.sound(),
            old(self).tallies(*ops),
            old(self).seen().len() < i64::MAX,
        ensures
            final(self).by() == old(self).by(),
            final(self).metrics() == old(self).metrics(),
            final(self).seen() == old(self).seen().push(rec@),
            final(self).tallies(*ops),
    {
        let ghost rs = self.records@;
        let ghost more = rs.push(rec@);
        let ghost by = self.by();
        let key = ops.make_group_key(rec, &self.group_fields);
        let ghost kv = key@;
        let ghost was = self.groups@;
        proof {
            assert(more.drop_last() =~= rs);
            ops.lemma_members_size(rs, by, kv);
        }
        let mut slot = match self.groups.remove(key.as_str()) {
            Some(g) => g,
            None => {
                let row = ops.make_group_values(rec, &self.group_fields);
                GroupSlot { row, acc: AggAccumulator::new(ops, &self.funcs) }
            },
        };
        proof {
            if !was.contains_key(kv) {
                assert(ops.members(rs, by, kv) =~= Seq::<RecordV>::empty());
            }
        }
        slot.acc.observe(ops, rec);
        let ghost sv = slot;
        self.groups.insert(key, slot);
        self.records = Ghost(more);
        proof {
            assert(self.groups@ =~= was.insert(kv, sv));
            assert forall|k: Seq<char>| #[trigger] self.groups@.contains_key(k) implies ({
                let m = ops.members(more, by, k);
                let g = self.groups@[k];
                &&& record::fields_view(g.row@) == ops.group_values(m[0], by)
                &&& g.acc.metrics() == self.metrics()
                &&& g.acc.seen() == m
                &&& g.acc.tallies(*ops)
            }) by {
                if k == kv {
                    let m = ops.members(rs, by, kv);
                    assert(ops.members(more, by, kv) == m.push(rec@));
                    if m.len() > 0 {
                        assert(was.contains_key(kv));
                        assert(m.push(rec@)[0] == m[0]);
                    }
                } else {
                    assert(was.contains_key(k));
                    assert(ops.members(more, by, k) == ops.members(rs, by, k));
                }
            }
            assert forall|k: Seq<char>| #[trigger] self.groups@.contains_key(k) == (ops.members(
                more,
                by,
                k,
            ).len() > 0) by {
                if k != kv {
                    assert(was.contains_key(k) == (ops.members(rs, by, k).len() > 0));
                }
            }
        }
    }

    /// The rows of the groups, in the order of their keys.
    pub fn finish<
        L: Fn(&Record, &(String, FilterOp, Value)) -> bool,
        P: Fn(&Fields, &str) -> Option<Value>,
        A: Fn(u64, u64) -> u64,
        S: Fn(&[u64]) -> u64,
        Q: Fn(u64, u64) -> u64,
        W: Fn(u64) -> String,
    >(self, ops: &AggOps<L, P, A, S, Q, W>) -> (r: Vec<Fields>)
        requires
            ops.sound(),
            self.tallies(*ops),
            self.seen().len() <= i64::MAX,
        ensures
            ops.is_grouping(self.seen(), self.by(), self.metrics(), rows_view(r@)),
    {
        let ghost rs = self.seen();
        let ghost by = self.by();
        let ghost metrics = self.metrics();
        let ghost groups = self.groups@;
        let ghost listed = self.groups.listed();
        proof {
            use_type_invariant(&self.groups);
            self.groups.lemma_listed();
        }
        let ghost keys = Seq::new(listed.len(), |i: int| listed[i].0@);
        let mut out: Vec<Fields> = Vec::new();
        let mut todo = self.groups.into_values_reversed();
        let ghost n = listed.len();
        while todo.len() > 0
            invariant
                ops.sound(),
                rs.len() <= i64::MAX,
                n == listed.len(),
                out@.len() + todo@.len() == n,
                sorted_map::names_increase(listed),
                groups == sorted_map::entries_map(listed),
                keys == Seq::new(listed.len(), |i: int| listed[i].0@),
                forall|j: int|
                    0 <= j < todo@.len() ==> #[trigger] todo@[j] == listed[n - 1 - j].1,
                forall|k: Seq<char>| #[trigger]
                    groups.contains_key(k) ==> {
                        let m = ops.members(rs, by, k);
                        let g = groups[k];
                        &&& record::fields_view(g.row@) == ops.group_values(m[0], by)
                        &&& g.acc.metrics() == metrics
                        &&& g.acc.seen() == m
                        &&& g.acc.tallies(*ops)
                    },
                forall|j: int|
                    0 <= j < out@.len() ==> record::fields_view((#[trigger] out@[j])@)
                        == ops.group_row(rs, by, metrics, keys[j]),
            decreases todo@.len(),
        {
            let ghost i = out@.len() as int;
            let ghost left = todo@;
            if let Some(g) = todo.pop() {
                proof {
                    assert(g == left[left.len() - 1]);
                    assert(g == listed[i].1);
                    sorted_map::lemma_entry_in_map(listed, i);
                    assert(groups.contains_key(keys[i]));
                    assert(groups[keys[i]] == g);
                    ops.lemma_members_size(rs, by, keys[i]);
                }
                let row = g.row;
                let agg = g.acc.finalize(ops);
                let ghost rowv = record::fields_view(row@);
                let ghost aggv = record::fields_view(agg@);
                let whole = record::extend_fields(row, agg);
                out.push(whole);
                assert(record::fields_view(out@[i]@) == ops.group_row(rs, by, metrics, keys[i]));
            }
        }
        proof {
            assert forall|i: int, j: int| 0 <= i < j < keys.len() implies bytes::str_lt(
                #[trigger] keys[i],
                #[trigger] keys[j],
            ) by {
                assert(bytes::str_lt(listed[i].0@, listed[j].0@));
            }
            assert forall|k: Seq<char>| #[trigger] keys.contains(k) == (ops.members(rs, by, k).len()
                > 0) by {
                assert(groups.contains_key(k) == (ops.members(rs, by, k).len() > 0));
                if groups.contains_key(k) {
                    let j = choose|j: int| sorted_map::holds_at(listed, k, j);
                    assert(keys[j] == k);
                }
                if keys.contains(k) {
                    let j = choose|j: int| 0 <= j < keys.len() && keys[j] == k;
                    sorted_map::lemma_entry_in_map(listed, j);
                }
            }
            assert(rows_view(out@) =~= Seq::new(
                keys.len(),
                |i: int| ops.group_row(rs, by, metrics, keys[i]),
            ));
            assert(ops.rows_of_keys(rs, by, metrics, keys, rows_view(out@)));
        }
        out
    }
}

impl<
    L: Fn(&Record, &(String, FilterOp, Value)) -> bool,
    P: Fn(&Fields, &str) -> Option<Value>,
    A: Fn(u64, u64) -> u64,
    S: Fn(&[u64]) -> u64,
    Q: Fn(u64, u64) -> u64,
    W: Fn(u64) -> String,
> AggOps<L, P, A, S, Q, W> {
    /// `rows` has one row for each of the keys, which are those of the groups, in
    /// order.
    pub open spec fn rows_of_keys(
        &self,
        rs: Seq<RecordV>,
        by: Seq<Seq<char>>,
        metrics: Seq<AggregateV>,
        keys: Seq<Seq<char>>,
        rows: Seq<Map<Seq<char>, ValueV>>,
    ) -> bool {
        &&& keys_increase(keys)
        &&& forall|k: Seq<char>| #[trigger]
            keys.contains(k) == (self.members(rs, by, k).len() > 0)
        &&& rows == Seq::new(keys.len(), |i: int| self.group_row(rs, by, metrics, keys[i]))
    }

    /// `rows` has one row for each group of the records, in the order of the
    /// groups' keys.
    pub open spec fn is_grouping(
        &self,
        rs: Seq<RecordV>,
        by: Seq<Seq<char>>,
        metrics: Seq<AggregateV>,
        rows: Seq<Map<Seq<char>, ValueV>>,
    ) -> bool {
        exists|keys: Seq<Seq<char>>| #[trigger] self.rows_of_keys(rs, by, metrics, keys, rows)
    }
}

// ---------------------------------------------------------------------------
// What a group is
// ---------------------------------------------------------------------------
/// The value is a null, a boolean, an integer, a timestamp or a text without the
/// character that separates the group fields; or there is none.
pub open spec fn is_plain(v: Option<ValueV>) -> bool {
    match v {
        None => true,
        Some(x) => x is Null || x is Bool || x is Int || x is Timestamp || (x is Text
            && !x->Text_0.contains('|')),
    }
}

/// The two values are the same; an absent one is like a null.
pub open spec fn same_value(v: Option<ValueV>, w: Option<ValueV>) -> bool {
    v == w || ((v is None || v == Some(ValueV::Null)) && (w is None || w == Some(ValueV::Null)))
}

impl<
    L: Fn(&Record, &(String, FilterOp, Value)) -> bool,
    P: Fn(&Fields, &str) -> Option<Value>,
    A: Fn(u64, u64) -> u64,
    S: Fn(&[u64]) -> u64,
    Q: Fn(u64, u64) -> u64,
    W: Fn(u64) -> String,
> AggOps<L, P, A, S, Q, W> {
    /// The text of a group field tells plain values apart: it is the same only for the
    /// same value, and it is never that of a value of another kind.
    pub proof fn law_key_tells_values_apart(&self, v: Option<ValueV>, w: Option<ValueV>)
        requires
            is_plain(v),
            self.key_text(v) == self.key_text(w),
        ensures
            same_value(v, w),
    {
        reveal_strlit("N");
        reveal_strlit("B1");
        reveal_strlit("B0");
        reveal_strlit("I");
        reveal_strlit("F");
        reveal_strlit("T");
        reveal_strlit("S");
        reveal_strlit("X");
        reveal_strlit("L");
        reveal_strlit("M");
        reveal_strlit("V");
        let x = self.key_text(v);
        let y = self.key_text(w);
        assert(x[0] == y[0]);
        match (v, w) {
            (Some(ValueV::Bool(a)), Some(ValueV::Bool(b))) => {
                assert(x[1] == y[1]);
            },
            (Some(ValueV::Int(a)), Some(ValueV::Int(b))) => {
                assert(x.skip(1) =~= text::decimal(a as int));
                assert(y.skip(1) =~= text::decimal(b as int));
                text::law_decimals_tell_apart(a as int, b as int);
            },
            (Some(ValueV::Timestamp(a)), Some(ValueV::Timestamp(b))) => {
                assert(x.skip(1) =~= text::decimal(a as int));
                assert(y.skip(1) =~= text::decimal(b as int));
                text::law_decimals_tell_apart(a as int, b as int);
            },
            (Some(ValueV::Text(a)), Some(ValueV::Text(b))) => {
                assert(x.skip(1) =~= a);
                assert(y.skip(1) =~= b);
            },
            _ => {},
        }
    }

    proof fn lemma_plain_key(&self, v: Option<ValueV>)
        requires
            is_plain(v),
        ensures
            !self.key_text(v).contains('|'),
    {
        reveal_strlit("N");
        reveal_strlit("B1");
        reveal_strlit("B0");
        reveal_strlit("I");
        reveal_strlit("T");
        reveal_strlit("S");
        let x = self.key_text(v);
        if x.contains('|') {
            let i = choose|i: int| 0 <= i < x.len() && x[i] == '|';
            match v {
                Some(ValueV::Int(n)) => {
                    text::lemma_decimal_chars(n as int);
                    assert(x[i] == text::decimal(n as int)[i - 1]);
                },
                Some(ValueV::Timestamp(n)) => {
                    text::lemma_decimal_chars(n as int);
                    assert(x[i] == text::decimal(n as int)[i - 1]);
                },
                Some(ValueV::Text(t)) => {
                    assert(t[i - 1] == '|');
                },
                _ => {},
            }
        }
    }

    /// The values of the record's group fields are plain.
    pub open spec fn plainly_grouped(&self, r: RecordV, by: Seq<Seq<char>>) -> bool {
        forall|i: int| 0 <= i < by.len() ==> is_plain(self.value_at(r.fields, #[trigger] by[i]))
    }

    /// The two records have the same values of the group fields.
    pub open spec fn alike(&self, r: RecordV, q: RecordV, by: Seq<Seq<char>>) -> bool {
        forall|i: int|
            0 <= i < by.len() ==> same_value(
                self.value_at(r.fields, #[trigger] by[i]),
                self.value_at(q.fields, by[i]),
            )
    }

    /// Two records are of one group exactly where they have the same values of the
    /// group fields.
    pub proof fn law_group_is_its_values(&self, r: RecordV, q: RecordV, by: Seq<Seq<char>>)
        requires
            self.plainly_grouped(r, by),
            self.plainly_grouped(q, by),
        ensures
            self.group_key(r, by) == self.group_key(q, by) <==> self.alike(r, q, by),
    {
        reveal_strlit("|");
        let a = self.group_texts(r, by);
        let b = self.group_texts(q, by);
        assert("|"@ =~= seq!['|']);
        if self.alike(r, q, by) {
            assert(a =~= b) by {
                assert forall|i: int| 0 <= i < by.len() implies a[i] == b[i] by {
                    assert(same_value(
                        self.value_at(r.fields, by[i]),
                        self.value_at(q.fields, by[i]),
                    ));
                }
            }
        }
        if self.group_key(r, by) == self.group_key(q, by) && by.len() > 0 {
            assert forall|i: int| 0 <= i < a.len() implies !(#[trigger] a[i]).contains('|') by {
                self.lemma_plain_key(self.value_at(r.fields, by[i]));
            }
            assert forall|i: int| 0 <= i < b.len() implies !(#[trigger] b[i]).contains('|') by {
                self.lemma_plain_key(self.value_at(q.fields, by[i]));
            }
            text::law_join_keeps_parts(a, b, '|');
            assert forall|i: int| 0 <= i < by.len() implies same_value(
                self.value_at(r.fields, #[trigger] by[i]),
                self.value_at(q.fields, by[i]),
            ) by {
                assert(a[i] == b[i]);
                self.law_key_tells_values_apart(
                    self.value_at(r.fields, by[i]),
                    self.value_at(q.fields, by[i]),
                );
            }
        }
    }

    proof fn lemma_members_shown(
        &self,
        rs: Seq<RecordV>,
        by: Seq<Seq<char>>,
        key: Seq<char>,
        row: Map<Seq<char>, ValueV>,
    )
        requires
            forall|i: int|
                0 <= i < rs.len() ==> (self.row_shows(row, #[trigger] rs[i], by)
                    <==> self.group_key(rs[i], by) == key),
        ensures
            self.members(rs, by, key) == rs.filter(|r: RecordV| self.row_shows(row, r, by)),
        decreases rs.len(),
    {
        reveal(Seq::filter);
        if rs.len() > 0 {
            let d = rs.drop_last();
            assert forall|i: int| 0 <= i < d.len() implies (self.row_shows(row, #[trigger] d[i], by)
                <==> self.group_key(d[i], by) == key) by {
                assert(d[i] == rs[i]);
            }
            self.lemma_members_shown(d, by, key, row);
            assert(rs[rs.len() - 1] == rs.last());
        }
    }

    proof fn lemma_members_are_those(&self, rs: Seq<RecordV>, by: Seq<Seq<char>>, key: Seq<char>)
        ensures
            forall|i: int|
                0 <= i < self.members(rs, by, key).len() ==> rs.contains(
                    #[trigger] self.members(rs, by, key)[i],
                ) && self.group_key(self.members(rs, by, key)[i], by) == key,
            forall|i: int|
                0 <= i < rs.len() && self.group_key(#[trigger] rs[i], by) == key
                    ==> self.members(rs, by, key).contains(rs[i]),
        decreases rs.len(),
    {
        if rs.len() > 0 {
            let d = rs.drop_last();
            self.lemma_members_are_those(d, by, key);
            let q = self.members(d, by, key);
            let m = self.members(rs, by, key);
            assert forall|i: int| 0 <= i < m.len() implies rs.contains(#[trigger] m[i])
                && self.group_key(m[i], by) == key by {
                if i < q.len() {
                    assert(m[i] == q[i]);
                    let j = choose|j: int| 0 <= j < d.len() && d[j] == q[i];
                    assert(rs[j] == m[i]);
                } else {
                    assert(rs[rs.len() - 1] == m[i]);
                }
            }
            assert forall|i: int| 0 <= i < rs.len() && self.group_key(#[trigger] rs[i], by) == key implies m.contains(
            rs[i]) by {
                if i < d.len() {
                    assert(d[i] == rs[i]);
                    assert(q.contains(rs[i]));
                    let j = choose|j: int| 0 <= j < q.len() && q[j] == rs[i];
                    assert(m[j] == rs[i]);
                } else {
                    assert(m[m.len() - 1] == rs[i]);
                }
            }
        }
    }

    proof fn lemma_group_value(&self, r: RecordV, by: Seq<Seq<char>>, f: Seq<char>)
        ensures
            self.group_values(r, by).contains_key(f) <==> by.contains(f) && self.value_at(
                r.fields,
                f,
            ) is Some,
            self.group_values(r, by).contains_key(f) ==> Some(self.group_values(r, by)[f])
                == self.value_at(r.fields, f),
        decreases by.len(),
    {
        if by.len() > 0 {
            let d = by.drop_last();
            self.lemma_group_value(r, d, f);
            if by.contains(f) && f != by.last() {
                let i = choose|i: int| 0 <= i < by.len() && by[i] == f;
                assert(d[i] == f);
            }
            if d.contains(f) {
                let i = choose|i: int| 0 <= i < d.len() && d[i] == f;
                assert(by[i] == f);
            }
            if f == by.last() {
                assert(by[by.len() - 1] == f);
            }
        }
    }

    proof fn lemma_metric_labels(
        &self,
        metrics: Seq<AggregateV>,
        rs: Seq<RecordV>,
        label: Seq<char>,
    )
        requires
            self.metric_values(metrics, rs).contains_key(label),
        ensures
            exists|x: int|
                0 <= x < metrics.len() && aggregate::label_of(#[trigger] metrics[x]) == label,
        decreases metrics.len(),
    {
        let d = metrics.drop_last();
        if self.metric_values(d, rs).contains_key(label) {
            self.lemma_metric_labels(d, rs, label);
            let x = choose|x: int|
                0 <= x < d.len() && aggregate::label_of(#[trigger] d[x]) == label;
            assert(metrics[x] == d[x]);
        } else {
            assert(metrics[metrics.len() - 1] == metrics.last());
        }
    }

    /// The row shows the record's values of the group fields.
    pub open spec fn row_shows(
        &self,
        row: Map<Seq<char>, ValueV>,
        r: RecordV,
        by: Seq<Seq<char>>,
    ) -> bool {
        forall|i: int|
            0 <= i < by.len() ==> same_value(
                if row.contains_key(#[trigger] by[i]) {
                    Some(row[by[i]])
                } else {
                    None
                },
                self.value_at(r.fields, by[i]),
            )
    }

    /// Some row shows the record's values.
    pub open spec fn is_shown(
        &self,
        rows: Seq<Map<Seq<char>, ValueV>>,
        r: RecordV,
        by: Seq<Seq<char>>,
    ) -> bool {
        exists|k: int| 0 <= k < rows.len() && #[trigger] self.row_shows(rows[k], r, by)
    }

    /// The row shows the values of some record.
    pub open spec fn shows_some(
        &self,
        row: Map<Seq<char>, ValueV>,
        rs: Seq<RecordV>,
        by: Seq<Seq<char>>,
    ) -> bool {
        exists|i: int| 0 <= i < rs.len() && #[trigger] self.row_shows(row, rs[i], by)
    }

    /// Every record is in exactly one row: the one that shows its values of the group
    /// fields. Every row is of some record, and its metrics are those of exactly the
    /// records that have its values.
    pub proof fn law_rows_are_groups(
        &self,
        rs: Seq<RecordV>,
        by: Seq<Seq<char>>,
        metrics: Seq<AggregateV>,
        rows: Seq<Map<Seq<char>, ValueV>>,
    )
        requires
            self.is_grouping(rs, by, metrics, rows),
            forall|i: int|
                0 <= i < rs.len() ==> self.plainly_grouped(#[trigger] rs[i], by),
            forall|i: int, j: int|
                0 <= i < metrics.len() && 0 <= j < by.len() ==> aggregate::label_of(
                    #[trigger] metrics[i],
                ) != #[trigger] by[j],
        ensures
            forall|i: int| 0 <= i < rs.len() ==> self.is_shown(rows, #[trigger] rs[i], by),
            forall|i: int, k: int, l: int|
                0 <= i < rs.len() && 0 <= k < rows.len() && 0 <= l < rows.len()
                    && #[trigger] self.row_shows(rows[k], rs[i], by) && #[trigger] self.row_shows(
                    rows[l],
                    rs[i],
                    by,
                ) ==> k == l,
            forall|k: int| 0 <= k < rows.len() ==> self.shows_some(#[trigger] rows[k], rs, by),
            forall|k: int, label: Seq<char>|
                0 <= k < rows.len() && !by.contains(label) ==> {
                    let m = self.metric_values(
                        metrics,
                        rs.filter(|r: RecordV| self.row_shows(rows[k], r, by)),
                    );
                    &&& (#[trigger] rows[k].contains_key(label) <==> m.contains_key(label))
                    &&& m.contains_key(label) ==> rows[k][label] == m[label]
                },
    {
        let keys = choose|keys: Seq<Seq<char>>| #[trigger]
            self.rows_of_keys(rs, by, metrics, keys, rows);
        assert forall|k: int| 0 <= k < rows.len() implies ({
            let m = self.members(rs, by, #[trigger] keys[k]);
            &&& m.len() > 0
            &&& rs.contains(m[0])
            &&& self.group_key(m[0], by) == keys[k]
            &&& self.plainly_grouped(m[0], by)
            &&& self.row_shows(rows[k], m[0], by)
        }) by {
            let m = self.members(rs, by, keys[k]);
            assert(keys.contains(keys[k]));
            self.lemma_members_are_those(rs, by, keys[k]);
            let w = choose|w: int| 0 <= w < rs.len() && rs[w] == m[0];
            assert(self.plainly_grouped(rs[w], by));
            assert forall|i: int| 0 <= i < by.len() implies same_value(
                if rows[k].contains_key(#[trigger] by[i]) {
                    Some(rows[k][by[i]])
                } else {
                    None
                },
                self.value_at(m[0].fields, by[i]),
            ) by {
                assert(by.contains(by[i]));
                self.lemma_group_value(m[0], by, by[i]);
                assert(!self.metric_values(metrics, m).contains_key(by[i])) by {
                    if self.metric_values(metrics, m).contains_key(by[i]) {
                        self.lemma_metric_labels(metrics, m, by[i]);
                        let x = choose|x: int|
                            0 <= x < metrics.len() && aggregate::label_of(metrics[x]) == by[i];
                        assert(aggregate::label_of(metrics[x]) != by[i]);
                    }
                }
            }
        }
        // A row shows a record where the record is of the row's group, and only there.
        assert forall|i: int, k: int|
            0 <= i < rs.len() && 0 <= k < rows.len() implies (#[trigger] self.row_shows(
            rows[k],
            rs[i],
            by,
        ) <==> self.group_key(rs[i], by) == keys[k]) by {
            let m = self.members(rs, by, keys[k]);
            self.law_group_is_its_values(m[0], rs[i], by);
            if self.row_shows(rows[k], rs[i], by) {
                assert forall|j: int| 0 <= j < by.len() implies same_value(
                    self.value_at(m[0].fields, #[trigger] by[j]),
                    self.value_at(rs[i].fields, by[j]),
                ) by {}
            }
            if self.alike(m[0], rs[i], by) {
                assert forall|j: int| 0 <= j < by.len() implies same_value(
                    if rows[k].contains_key(#[trigger] by[j]) {
                        Some(rows[k][by[j]])
                    } else {
                        None
                    },
                    self.value_at(rs[i].fields, by[j]),
                ) by {
                    assert(same_value(
                        self.value_at(m[0].fields, by[j]),
                        self.value_at(rs[i].fields, by[j]),
                    ));
                }
            }
        }
        assert forall|i: int| 0 <= i < rs.len() implies self.is_shown(rows, #[trigger] rs[i], by) by {
            let key = self.group_key(rs[i], by);
            self.lemma_members_are_those(rs, by, key);
            assert(self.members(rs, by, key).contains(rs[i]));
            assert(keys.contains(key));
            let k = choose|k: int| 0 <= k < keys.len() && keys[k] == key;
            assert(self.row_shows(rows[k], rs[i], by));
        }
        assert forall|k: int| 0 <= k < rows.len() implies self.shows_some(
            #[trigger] rows[k],
            rs,
            by,
        ) by {
            let m = self.members(rs, by, keys[k]);
            let w = choose|w: int| 0 <= w < rs.len() && rs[w] == m[0];
            assert(self.row_shows(rows[k], rs[w], by));
        }
        assert forall|i: int, k: int, l: int|
            0 <= i < rs.len() && 0 <= k < rows.len() && 0 <= l < rows.len()
                && #[trigger] self.row_shows(rows[k], rs[i], by) && #[trigger] self.row_shows(
                rows[l],
                rs[i],
                by,
            ) implies k == l by {
            if k < l {
                bytes::lemma_lex_irreflexive(vstd::utf8::encode_utf8(keys[k]));
                assert(bytes::str_lt(keys[k], keys[l]));
            }
            if l < k {
                bytes::lemma_lex_irreflexive(vstd::utf8::encode_utf8(keys[k]));
                assert(bytes::str_lt(keys[l], keys[k]));
            }
        }
        assert forall|k: int, label: Seq<char>|
            0 <= k < rows.len() && !by.contains(label) implies ({
            let m = self.metric_values(
                metrics,
                rs.filter(|r: RecordV| self.row_shows(rows[k], r, by)),
            );
            &&& (#[trigger] rows[k].contains_key(label) <==> m.contains_key(label))
            &&& m.contains_key(label) ==> rows[k][label] == m[label]
        }) by {
            let first = self.members(rs, by, keys[k])[0];
            self.lemma_members_shown(rs, by, keys[k], rows[k]);
            self.lemma_group_value(first, by, label);
        }
    }
}

impl<
    L: Fn(&Record, &(String, FilterOp, Value)) -> bool,
    P: Fn(&Fields, &str) -> Option<Value>,
    A: Fn(u64, u64) -> u64,
    S: Fn(&[u64]) -> u64,
    Q: Fn(u64, u64) -> u64,
    W: Fn(u64) -> String,
> AggOps<L, P, A, S, Q, W> {
    /// Doubles are of one group where they read alike, and byte strings, lists, objects and
    /// vectors where they are of one kind and as long; none is of a group with a value of
    /// another kind.
    pub proof fn law_key_of_other_values(&self, v: ValueV, w: ValueV)
        requires
            v is Float || v is Bytes || v is List || v is Object || v is Vector,
        ensures
            self.key_text(Some(v)) == self.key_text(Some(w)) <==> match (v, w) {
                (ValueV::Float(x), ValueV::Float(y)) => self.float_text(x) == self.float_text(y),
                (ValueV::Bytes(x), ValueV::Bytes(y)) => x.len() == y.len(),
                (ValueV::List(x), ValueV::List(y)) => x.len() == y.len(),
                (ValueV::Object(x), ValueV::Object(y)) => x.len() == y.len(),
                (ValueV::Vector(x), ValueV::Vector(y)) => x.len() == y.len(),
                _ => false,
            },
            self.key_text(Some(v)) != self.key_text(None),
    {
        reveal_strlit("N");
        reveal_strlit("B1");
        reveal_strlit("B0");
        reveal_strlit("I");
        reveal_strlit("F");
        reveal_strlit("T");
        reveal_strlit("S");
        reveal_strlit("X");
        reveal_strlit("L");
        reveal_strlit("M");
        reveal_strlit("V");
        let x = self.key_text(Some(v));
        let y = self.key_text(Some(w));
        assert(x == y ==> x[0] == y[0]);
        assert(x[0] != self.key_text(None)[0]);
        let (m, n): (int, int) = match (v, w) {
            (ValueV::Bytes(a), ValueV::Bytes(b)) => (a.len() as int, b.len() as int),
            (ValueV::List(a), ValueV::List(b)) => (a.len() as int, b.len() as int),
            (ValueV::Object(a), ValueV::Object(b)) => (a.len() as int, b.len() as int),
            (ValueV::Vector(a), ValueV::Vector(b)) => (a.len() as int, b.len() as int),
            _ => (0, 0),
        };
        match (v, w) {
            (ValueV::Float(a), ValueV::Float(b)) => {
                assert(x.skip(1) =~= self.float_text(a));
                assert(y.skip(1) =~= self.float_text(b));
            },
            (ValueV::Bytes(_), ValueV::Bytes(_)) | (ValueV::List(_), ValueV::List(_)) | (
                ValueV::Object(_),
                ValueV::Object(_),
            ) | (ValueV::Vector(_), ValueV::Vector(_)) => {
                assert(x.skip(1) =~= text::decimal(m));
                assert(y.skip(1) =~= text::decimal(n));
                if x == y {
                    text::law_decimals_tell_apart(m, n);
                }
            },
            _ => {},
        }
    }

    /// The rows of groups by one field come in the order of the texts by which its values
    /// tell groups apart.
    pub proof fn law_rows_come_by_group(
        &self,
        rs: Seq<RecordV>,
        f: Seq<char>,
        metrics: Seq<AggregateV>,
        rows: Seq<Map<Seq<char>, ValueV>>,
        k: int,
        l: int,
    )
        requires
            self.is_grouping(rs, seq![f], metrics, rows),
            0 <= k < l < rows.len(),
            forall|i: int|
                0 <= i < metrics.len() ==> aggregate::label_of(#[trigger] metrics[i]) != f,
        ensures
            bytes::str_lt(
                self.key_text(aggregate::field_in(rows[k], f)),
                self.key_text(aggregate::field_in(rows[l], f)),
            ),
    {
        let by = seq![f];
        let keys = choose|keys: Seq<Seq<char>>| #[trigger]
            self.rows_of_keys(rs, by, metrics, keys, rows);
        assert forall|j: int| 0 <= j < rows.len() implies self.key_text(
            aggregate::field_in(#[trigger] rows[j], f),
        ) == keys[j] by {
            let m = self.members(rs, by, keys[j]);
            assert(keys.contains(keys[j]));
            self.lemma_members_are_those(rs, by, keys[j]);
            self.lemma_group_value(m[0], by, f);
            assert(by[0] == f);
            assert(by.contains(f));
            if self.metric_values(metrics, m).contains_key(f) {
                self.lemma_metric_labels(metrics, m, f);
                let x = choose|x: int|
                    0 <= x < metrics.len() && aggregate::label_of(#[trigger] metrics[x]) == f;
                assert(aggregate::label_of(metrics[x]) != f);
            }
            assert(self.group_texts(m[0], by) =~= seq![
                self.key_text(self.value_at(m[0].fields, f)),
            ]);
            assert(self.group_key(m[0], by) == self.key_text(self.value_at(m[0].fields, f)));
        }
        assert(bytes::str_lt(keys[k], keys[l]));
    }
}

} // verus!
