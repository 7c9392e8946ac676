//! Aggregation of records: counts, sums, averages, minima and maxima, over all
//! records or for each group.

use crate::ast;
use crate::ast::{FilterExpr, FilterExprV};
use crate::error::XyzError;
use crate::filter;
use crate::filter::CoreFilterExpr;
use crate::float;
use crate::record;
use crate::record::{Fields, FilterOp, Record, RecordV};
use crate::selection;
use crate::sorted_map::SortedMap;
use crate::text;
use crate::value;
use crate::value::{Value, ValueV};
use vstd::prelude::*;

verus! {

/// What a metric computes.
#[derive(Debug)]
pub enum AggregateFunc {
    Count,
    Sum(String),
    Avg(String),
    Min(String),
    Max(String),
}

/// What an [`AggregateFunc`] says.
pub enum AggregateFuncV {
    Count,
    Sum(Seq<char>),
    Avg(Seq<char>),
    Min(Seq<char>),
    Max(Seq<char>),
}

impl View for AggregateFunc {
    type V = AggregateFuncV;

    open spec fn view(&self) -> AggregateFuncV {
        match self {
            AggregateFunc::Count => AggregateFuncV::Count,
            AggregateFunc::Sum(f) => AggregateFuncV::Sum(f@),
            AggregateFunc::Avg(f) => AggregateFuncV::Avg(f@),
            AggregateFunc::Min(f) => AggregateFuncV::Min(f@),
            AggregateFunc::Max(f) => AggregateFuncV::Max(f@),
        }
    }
}

impl AggregateFunc {
    /// A copy.
    pub fn clone_func(&self) -> (r: AggregateFunc)
        ensures
            r@ == self@,
    {
        match self {
            AggregateFunc::Count => AggregateFunc::Count,
            AggregateFunc::Sum(f) => AggregateFunc::Sum(f.clone()),
            AggregateFunc::Avg(f) => AggregateFunc::Avg(f.clone()),
            AggregateFunc::Min(f) => AggregateFunc::Min(f.clone()),
            AggregateFunc::Max(f) => AggregateFunc::Max(f.clone()),
        }
    }
}

/// One metric of a clause: what it computes, under which name, over which
/// records.
#[derive(Debug)]
pub struct Aggregate {
    pub func: AggregateFunc,
    pub alias: Option<String>,
    pub filter: Option<FilterExpr>,
}

/// What an [`Aggregate`] says.
pub struct AggregateV {
    pub func: AggregateFuncV,
    pub alias: Option<Seq<char>>,
    pub filter: Option<FilterExprV>,
}

impl View for Aggregate {
    type V = AggregateV;

    open spec fn view(&self) -> AggregateV {
        AggregateV {
            func: self.func@,
            alias: crate::ghost_keys::opt_text(self.alias),
            filter: filter::opt_expr_view(self.filter),
        }
    }
}

/// What metrics say.
pub open spec fn aggregates_view(s: Seq<Aggregate>) -> Seq<AggregateV> {
    s.map_values(|a: Aggregate| a@)
}

/// All parameters of the metrics' filters are bound.
pub open spec fn aggregates_bound(s: Seq<AggregateV>) -> bool {
    forall|i: int|
        0 <= i < s.len() ==> ((#[trigger] s[i]).filter matches Some(e) ==> ast::expr_bound(e))
}

/// The name of a metric without an alias.
pub open spec fn plain_label(f: AggregateFuncV) -> Seq<char> {
    match f {
        AggregateFuncV::Count => "count"@,
        AggregateFuncV::Sum(s) => "sum("@ + s + ")"@,
        AggregateFuncV::Avg(s) => "avg("@ + s + ")"@,
        AggregateFuncV::Min(s) => "min("@ + s + ")"@,
        AggregateFuncV::Max(s) => "max("@ + s + ")"@,
    }
}

/// The name of a metric.
pub open spec fn label_of(a: AggregateV) -> Seq<char> {
    match a.alias {
        Some(n) => n,
        None => plain_label(a.func),
    }
}

/// The names of metrics.
pub open spec fn labels_of(s: Seq<AggregateV>) -> Seq<Seq<char>> {
    s.map_values(|a: AggregateV| label_of(a))
}

/// The name of a metric without an alias.
pub fn canonical_label(func: &AggregateFunc) -> (r: String)
    ensures
        r@ == plain_label(func@),
{
    match func {
        AggregateFunc::Count => "count".to_owned(),
        AggregateFunc::Sum(f) => text::join3("sum(", f.as_str(), ")"),
        AggregateFunc::Avg(f) => text::join3("avg(", f.as_str(), ")"),
        AggregateFunc::Min(f) => text::join3("min(", f.as_str(), ")"),
        AggregateFunc::Max(f) => text::join3("max(", f.as_str(), ")"),
    }
}

/// The name of a metric: its alias, or else the canonical one.
pub fn resolve_label(agg: &Aggregate) -> (r: String)
    ensures
        r@ == label_of(agg@),
{
    match &agg.alias {
        Some(a) => a.clone(),
        None => canonical_label(&agg.func),
    }
}

/// The metric counts filtered records without a name that tells it from the
/// count of all.
pub open spec fn unnamed_count(a: AggregateV) -> bool {
    a.filter is Some && a.func is Count && a.alias is None
}

/// The metric at `i` has the name of an earlier one.
pub open spec fn repeats_label(s: Seq<AggregateV>, i: int) -> bool {
    labels_of(s).take(i).contains(label_of(s[i]))
}

/// The metrics before `i` are named without ambiguity.
pub open spec fn clear_before(s: Seq<AggregateV>, i: int) -> bool {
    forall|j: int|
        0 <= j < i ==> !unnamed_count(#[trigger] s[j]) && !repeats_label(s, j)
}

/// Why metrics are refused: the first one that is a filtered count without an
/// alias or repeats a name.
pub open spec fn refuses_labels(s: Seq<AggregateV>, message: Seq<char>) -> bool {
    exists|i: int|
        0 <= i < s.len() && #[trigger] clear_before(s, i) && if unnamed_count(s[i]) {
            message
                == "a filtered count() needs an AS alias to distinguish it from the group total"@
        } else {
            repeats_label(s, i) && message == "duplicate aggregate label '"@ + label_of(s[i])
                + "'; add AS <alias> to disambiguate"@
        }
}

/// The names of metrics, or why they are ambiguous.
pub fn resolve_labels(aggs: &Vec<Aggregate>) -> (r: Result<Vec<String>, String>)
    ensures
        match r {
            Ok(v) => clear_before(aggregates_view(aggs@), aggs@.len() as int) && text::names(v@)
                == labels_of(aggregates_view(aggs@)),
            Err(m) => refuses_labels(aggregates_view(aggs@), m@),
        },
{
    let ghost s = aggregates_view(aggs@);
    let mut labels: Vec<String> = Vec::new();
    let mut i: usize = 0;
    while i < aggs.len()
        invariant
            i <= aggs@.len(),
            s == aggregates_view(aggs@),
            text::names(labels@) =~= labels_of(s).take(i as int),
            clear_before(s, i as int),
        decreases aggs@.len() - i,
    {
        let a = &aggs[i];
        assert(s[i as int] == a@);
        let is_count = match &a.func {
            AggregateFunc::Count => true,
            _ => false,
        };
        if a.filter.is_some() && is_count && a.alias.is_none() {
            assert(clear_before(s, i as int) && unnamed_count(s[i as int]));
            return Err(
                "a filtered count() needs an AS alias to distinguish it from the group total".to_owned(),
            );
        }
        let label = resolve_label(a);
        if text::names_contain(labels.as_slice(), label.as_str()) {
            assert(clear_before(s, i as int) && repeats_label(s, i as int));
            return Err(
                text::join3(
                    "duplicate aggregate label '",
                    label.as_str(),
                    "'; add AS <alias> to disambiguate",
                ),
            );
        }
        labels.push(label);
        proof {
            assert(labels_of(s).take(i + 1) =~= labels_of(s).take(i as int).push(
                label_of(s[i as int]),
            ));
        }
        i = i + 1;
    }
    assert(labels_of(s).take(i as int) =~= labels_of(s));
    Ok(labels)
}

/// What the storage layer and the machine compute: whether a record satisfies a
/// predicate, the value at a path, sums and quotients of doubles, and how a
/// double reads. Doubles are their bits.
pub struct AggOps<L, P, A, S, Q, W> {
    pub matches: L,
    pub resolve: P,
    pub add: A,
    pub sum: S,
    pub divide: Q,
    pub show_float: W,
}

impl<
    L: Fn(&Record, &(String, FilterOp, Value)) -> bool,
    P: Fn(&Fields, &str) -> Option<Value>,
    A: Fn(u64, u64) -> u64,
    S: Fn(&[u64]) -> u64,
    Q: Fn(u64, u64) -> u64,
    W: Fn(u64) -> String,
> AggOps<L, P, A, S, Q, W> {
    /// The computations accept everything and depend on nothing but what the
    /// arguments stand for.
    pub open spec fn sound(&self) -> bool {
        &&& selection::tests(self.matches)
        &&& forall|f: &Fields, s: &str| #[trigger] self.resolve.requires((f, s))
        &&& forall|f: &Fields, s: &str, g: &Fields, t: &str, a: Option<Value>, b: Option<Value>|
            #![trigger self.resolve.ensures((f, s), a), self.resolve.ensures((g, t), b)]
            self.resolve.ensures((f, s), a) && self.resolve.ensures((g, t), b)
                && record::fields_view(f@) == record::fields_view(g@) && s@ == t@
                ==> value::opt_view(a) == value::opt_view(b)
        &&& forall|x: u64, y: u64| #[trigger] self.add.requires((x, y))
        &&& forall|x: u64, y: u64, a: u64, b: u64|
            #![trigger self.add.ensures((x, y), a), self.add.ensures((x, y), b)]
            self.add.ensures((x, y), a) && self.add.ensures((x, y), b) ==> a == b
        &&& forall|x: &[u64]| #[trigger] self.sum.requires((x,))
        &&& forall|x: &[u64], y: &[u64], a: u64, b: u64|
            #![trigger self.sum.ensures((x,), a), self.sum.ensures((y,), b)]
            self.sum.ensures((x,), a) && self.sum.ensures((y,), b) && x@ == y@ ==> a == b
        &&& forall|x: u64, n: u64| #[trigger] self.divide.requires((x, n))
        &&& forall|x: u64, n: u64, a: u64, b: u64|
            #![trigger self.divide.ensures((x, n), a), self.divide.ensures((x, n), b)]
            self.divide.ensures((x, n), a) && self.divide.ensures((x, n), b) ==> a == b
        &&& forall|x: u64| #[trigger] self.show_float.requires((x,))
        &&& forall|x: u64, a: String, b: String|
            #![trigger self.show_float.ensures((x,), a), self.show_float.ensures((x,), b)]
            self.show_float.ensures((x,), a) && self.show_float.ensures((x,), b) ==> a@ == b@
    }

    /// A record passes a filter; without one every record does.
    pub open spec fn passes(&self, f: Option<FilterExprV>, r: RecordV) -> bool {
        selection::passes(self.matches, f, r)
    }

    /// `v` is the value at the path.
    pub open spec fn is_at(
        &self,
        f: Map<Seq<char>, ValueV>,
        path: Seq<char>,
        v: Option<ValueV>,
    ) -> bool {
        exists|g: &Fields, s: &str, r: Option<Value>|
            record::fields_view(g@) == f && s@ == path && value::opt_view(r) == v
                && #[trigger] self.resolve.ensures((g, s), r)
    }

    /// The value at a path.
    pub open spec fn value_at(&self, f: Map<Seq<char>, ValueV>, path: Seq<char>) -> Option<
        ValueV,
    > {
        choose|v: Option<ValueV>| self.is_at(f, path, v)
    }

    /// The sum of two doubles.
    pub open spec fn added(&self, x: u64, y: u64) -> u64 {
        choose|r: u64| self.add.ensures((x, y), r)
    }

    /// `r` is the sum of the doubles.
    pub open spec fn is_sum(&self, x: Seq<u64>, r: u64) -> bool {
        exists|s: &[u64]| s@ == x && #[trigger] self.sum.ensures((s,), r)
    }

    /// The sum of doubles.
    pub open spec fn sum_of(&self, x: Seq<u64>) -> u64 {
        choose|r: u64| self.is_sum(x, r)
    }

    /// A double divided by a number.
    pub open spec fn divided(&self, x: u64, n: u64) -> u64 {
        choose|r: u64| self.divide.ensures((x, n), r)
    }

    /// `s` is how the double reads.
    pub open spec fn is_float_text(&self, x: u64, s: Seq<char>) -> bool {
        exists|r: String| r@ == s && #[trigger] self.show_float.ensures((x,), r)
    }

    /// How a double reads.
    pub open spec fn float_text(&self, x: u64) -> Seq<char> {
        choose|s: Seq<char>| self.is_float_text(x, s)
    }

    /// The predicates that a record satisfies.
    pub open spec fn truth_of(&self, r: RecordV) -> spec_fn((Seq<char>, FilterOp, ValueV)) -> bool {
        selection::truth_of(self.matches, r)
    }

    /// Whether a record satisfies a prepared filter.
    pub fn record_passes(&self, core: &CoreFilterExpr, r: &Record) -> (b: bool)
        requires
            self.sound(),
        ensures
            b == filter::holds(core@, self.truth_of(r@)),
    {
        selection::record_holds(&self.matches, core, r)
    }

    /// The value at a path.
    pub fn resolve_path(&self, f: &Fields, path: &str) -> (r: Option<Value>)
        requires
            self.sound(),
        ensures
            value::opt_view(r) == self.value_at(record::fields_view(f@), path@),
    {
        let r = (self.resolve)(f, path);
        assert(self.is_at(record::fields_view(f@), path@, value::opt_view(r)));
        r
    }

    /// The sum of two doubles.
    pub fn add_doubles(&self, x: u64, y: u64) -> (r: u64)
        requires
            self.sound(),
        ensures
            r == self.added(x, y),
    {
        let r: u64 = (self.add)(x, y);
        assert(self.add.ensures((x, y), r));
        r
    }

    /// The sum of doubles.
    pub fn sum_doubles(&self, x: &[u64]) -> (r: u64)
        requires
            self.sound(),
        ensures
            r == self.sum_of(x@),
    {
        let r: u64 = (self.sum)(x);
        assert(self.is_sum(x@, r));
        r
    }

    /// A double divided by a number.
    pub fn divide_double(&self, x: u64, n: u64) -> (r: u64)
        requires
            self.sound(),
        ensures
            r == self.divided(x, n),
    {
        let r: u64 = (self.divide)(x, n);
        assert(self.divide.ensures((x, n), r));
        r
    }
}

impl<
    L: Fn(&Record, &(String, FilterOp, Value)) -> bool,
    P: Fn(&Fields, &str) -> Option<Value>,
    A: Fn(u64, u64) -> u64,
    S: Fn(&[u64]) -> u64,
    Q: Fn(u64, u64) -> u64,
    W: Fn(u64) -> String,
> AggOps<L, P, A, S, Q, W> {
    /// The records that pass a filter, in order.
    pub open spec fn picked(&self, f: Option<FilterExprV>, rs: Seq<RecordV>) -> Seq<RecordV>
        decreases rs.len(),
    {
        if rs.len() == 0 {
            Seq::empty()
        } else if self.passes(f, rs.last()) {
            self.picked(f, rs.drop_last()).push(rs.last())
        } else {
            self.picked(f, rs.drop_last())
        }
    }

    /// The number at a path of a record, if there is one.
    pub open spec fn number_at(&self, r: RecordV, path: Seq<char>) -> Option<u64> {
        match self.value_at(r.fields, path) {
            Some(v) => value::number(v),
            None => None,
        }
    }

    /// The numbers at a path, in the order of the records.
    pub open spec fn numbers_at(&self, path: Seq<char>, rs: Seq<RecordV>) -> Seq<u64>
        decreases rs.len(),
    {
        if rs.len() == 0 {
            Seq::empty()
        } else {
            match self.number_at(rs.last(), path) {
                Some(x) => self.numbers_at(path, rs.drop_last()).push(x),
                None => self.numbers_at(path, rs.drop_last()),
            }
        }
    }

    /// The sum of numbers, one after the other.
    pub open spec fn running_sum(&self, xs: Seq<u64>) -> u64
        decreases xs.len(),
    {
        if xs.len() == 0 {
            0
        } else {
            self.added(self.running_sum(xs.drop_last()), xs.last())
        }
    }

    /// What a metric of records is, as it is computed record by record; a
    /// minimum or maximum only where it is finite.
    pub open spec fn metric_value(&self, a: AggregateV, rs: Seq<RecordV>) -> Option<ValueV> {
        let sel = self.picked(a.filter, rs);
        match a.func {
            AggregateFuncV::Count => Some(ValueV::Int(sel.len() as i64)),
            AggregateFuncV::Sum(f) => Some(
                ValueV::Float(self.running_sum(self.numbers_at(f, sel))),
            ),
            AggregateFuncV::Avg(f) => {
                let xs = self.numbers_at(f, sel);
                Some(
                    ValueV::Float(
                        if xs.len() == 0 {
                            0
                        } else {
                            self.divided(self.running_sum(xs), xs.len() as u64)
                        },
                    ),
                )
            },
            AggregateFuncV::Min(f) => finite_value(least(self.numbers_at(f, sel))),
            AggregateFuncV::Max(f) => finite_value(greatest(self.numbers_at(f, sel))),
        }
    }

    /// What metrics of records are, by their names.
    pub open spec fn metric_values(&self, s: Seq<AggregateV>, rs: Seq<RecordV>) -> Map<
        Seq<char>,
        ValueV,
    >
        decreases s.len(),
    {
        if s.len() == 0 {
            Map::empty()
        } else {
            let before = self.metric_values(s.drop_last(), rs);
            match self.metric_value(s.last(), rs) {
                Some(v) => before.insert(label_of(s.last()), v),
                None => before,
            }
        }
    }

    /// What one metric has seen of the records.
    pub open spec fn tallied(&self, a: AggregateV, rs: Seq<RecordV>, t: Tally) -> bool {
        let sel = self.picked(a.filter, rs);
        match a.func {
            AggregateFuncV::Count => t.count == sel.len(),
            AggregateFuncV::Sum(f) => t.sum == self.running_sum(self.numbers_at(f, sel)),
            AggregateFuncV::Avg(f) => t.sum == self.running_sum(self.numbers_at(f, sel)) && t.n
                == self.numbers_at(f, sel).len(),
            AggregateFuncV::Min(f) => t.min == least(self.numbers_at(f, sel)),
            AggregateFuncV::Max(f) => t.max == greatest(self.numbers_at(f, sel)),
        }
    }

    /// The number at a path of a record.
    fn read_number(&self, r: &Record, path: &str) -> (x: Option<u64>)
        requires
            self.sound(),
        ensures
            x == self.number_at(r@, path@),
    {
        match self.resolve_path(&r.fields, path) {
            Some(v) => value::numeric_value(&v),
            None => None,
        }
    }

    proof fn lemma_numbers_size(&self, path: Seq<char>, rs: Seq<RecordV>)
        ensures
            self.numbers_at(path, rs).len() <= rs.len(),
        decreases rs.len(),
    {
        if rs.len() > 0 {
            self.lemma_numbers_size(path, rs.drop_last());
        }
    }

    proof fn lemma_picked_size(&self, f: Option<FilterExprV>, rs: Seq<RecordV>)
        ensures
            self.picked(f, rs).len() <= rs.len(),
        decreases rs.len(),
    {
        if rs.len() > 0 {
            self.lemma_picked_size(f, rs.drop_last());
        }
    }

    /// Lets one metric see a record that passes its filter.
    fn tally(&self, func: &AggregateFunc, t: &mut Tally, r: &Record, Ghost(a): Ghost<AggregateV>, Ghost(
        rs,
    ): Ghost<Seq<RecordV>>)
        requires
            self.sound(),
            a.func == func@,
            self.tallied(a, rs, *old(t)),
            self.passes(a.filter, r@),
            rs.len() < i64::MAX,
        ensures
            self.tallied(a, rs.push(r@), *final(t)),
    {
        let ghost more = rs.push(r@);
        let ghost sel = self.picked(a.filter, rs);
        proof {
            assert(more.drop_last() =~= rs);
            assert(self.picked(a.filter, more) == sel.push(r@));
            assert(sel.push(r@).drop_last() =~= sel);
            self.lemma_picked_size(a.filter, rs);
        }
        match func {
            AggregateFunc::Count => {
                t.count = t.count + 1;
            },
            AggregateFunc::Sum(f) => {
                if let Some(x) = self.read_number(r, f.as_str()) {
                    let ghost xs = self.numbers_at(f@, sel);
                    assert(xs.push(x).drop_last() =~= xs);
                    t.sum = self.add_doubles(t.sum, x);
                }
            },
            AggregateFunc::Avg(f) => {
                if let Some(x) = self.read_number(r, f.as_str()) {
                    let ghost xs = self.numbers_at(f@, sel);
                    assert(xs.push(x).drop_last() =~= xs);
                    proof {
                        self.lemma_numbers_size(f@, sel);
                    }
                    t.sum = self.add_doubles(t.sum, x);
                    t.n = t.n + 1;
                }
            },
            AggregateFunc::Min(f) => {
                if let Some(x) = self.read_number(r, f.as_str()) {
                    let ghost xs = self.numbers_at(f@, sel);
                    assert(xs.push(x).drop_last() =~= xs);
                    if float::less(x, t.min) {
                        t.min = x;
                    }
                }
            },
            AggregateFunc::Max(f) => {
                if let Some(x) = self.read_number(r, f.as_str()) {
                    let ghost xs = self.numbers_at(f@, sel);
                    assert(xs.push(x).drop_last() =~= xs);
                    if float::less(t.max, x) {
                        t.max = x;
                    }
                }
            },
        }
    }
}

/// What one metric has seen.
pub struct Tally {
    pub count: i64,
    pub sum: u64,
    pub n: u64,
    pub min: u64,
    pub max: u64,
}

/// The least of numbers; infinity without any.
pub open spec fn least(xs: Seq<u64>) -> u64
    decreases xs.len(),
{
    if xs.len() == 0 {
        float::INFINITY_BITS
    } else {
        let m = least(xs.drop_last());
        if float::float_lt(xs.last(), m) {
            xs.last()
        } else {
            m
        }
    }
}

/// The greatest of numbers; negative infinity without any.
pub open spec fn greatest(xs: Seq<u64>) -> u64
    decreases xs.len(),
{
    if xs.len() == 0 {
        float::NEG_INFINITY_BITS
    } else {
        let m = greatest(xs.drop_last());
        if float::float_lt(m, xs.last()) {
            xs.last()
        } else {
            m
        }
    }
}

/// A number as a value, where it is finite.
pub open spec fn finite_value(x: u64) -> Option<ValueV> {
    if float::is_finite(x) {
        Some(ValueV::Float(x))
    } else {
        None
    }
}

/// A metric that is ready to see records.
struct ResolvedAgg {
    func: AggregateFunc,
    core: Option<CoreFilterExpr>,
    label: String,
    tally: Tally,
}

/// The metrics of a clause over the records that it has seen.
pub struct AggAccumulator {
    resolved: Vec<ResolvedAgg>,
    clause: Ghost<Seq<AggregateV>>,
    records: Ghost<Seq<RecordV>>,
}

/// The prepared filter is that of the clause.
spec fn prepared(core: Option<CoreFilterExpr>, f: Option<FilterExprV>) -> bool {
    match f {
        Some(e) => core matches Some(c) && c@ == filter::core_tree(e),
        None => core is None,
    }
}

impl AggAccumulator {
    /// The metrics.
    pub closed spec fn metrics(&self) -> Seq<AggregateV> {
        self.clause@
    }

    /// The records so far.
    pub closed spec fn seen(&self) -> Seq<RecordV> {
        self.records@
    }

    #[verifier::type_invariant]
    spec fn wf(&self) -> bool {
        &&& self.resolved@.len() == self.clause@.len()
        &&& forall|i: int|
            0 <= i < self.resolved@.len() ==> (#[trigger] self.resolved@[i]).func@
                == self.clause@[i].func && self.resolved@[i].label@ == label_of(self.clause@[i])
                && prepared(self.resolved@[i].core, self.clause@[i].filter)
    }

    /// Every metric has seen the records.
    pub closed spec fn tallies<
        L: Fn(&Record, &(String, FilterOp, Value)) -> bool,
        P: Fn(&Fields, &str) -> Option<Value>,
        A: Fn(u64, u64) -> u64,
        S: Fn(&[u64]) -> u64,
        Q: Fn(u64, u64) -> u64,
        W: Fn(u64) -> String,
    >(&self, ops: AggOps<L, P, A, S, Q, W>) -> bool {
        forall|i: int|
            0 <= i < self.resolved@.len() ==> ops.tallied(
                self.clause@[i],
                self.records@,
                (#[trigger] self.resolved@[i]).tally,
            )
    }

    /// The metrics of a clause, before any record.
    pub fn new<
        L: Fn(&Record, &(String, FilterOp, Value)) -> bool,
        P: Fn(&Fields, &str) -> Option<Value>,
        A: Fn(u64, u64) -> u64,
        S: Fn(&[u64]) -> u64,
        Q: Fn(u64, u64) -> u64,
        W: Fn(u64) -> String,
    >(ops: &AggOps<L, P, A, S, Q, W>, aggs: &Vec<Aggregate>) -> (r: Self)
        requires
            aggregates_bound(aggregates_view(aggs@)),
        ensures
            r.metrics() == aggregates_view(aggs@),
            r.seen() == Seq::<RecordV>::empty(),
            r.tallies(*ops),
    {
        let ghost cv = aggregates_view(aggs@);
        let mut resolved: Vec<ResolvedAgg> = Vec::new();
        let mut i: usize = 0;
        while i < aggs.len()
            invariant
                i <= aggs@.len(),
                cv == aggregates_view(aggs@),
                aggregates_bound(cv),
                resolved@.len() == i,
                forall|j: int|
                    0 <= j < i ==> (#[trigger] resolved@[j]).func@ == cv[j].func
                        && resolved@[j].label@ == label_of(cv[j]) && prepared(
                        resolved@[j].core,
                        cv[j].filter,
                    ) && ops.tallied(cv[j], Seq::empty(), resolved@[j].tally),
            decreases aggs@.len() - i,
        {
            let a = &aggs[i];
            assert(cv[i as int] == a@);
            let core = match &a.filter {
                Some(e) => Some(filter::to_core_expr(e)),
                None => None,
            };
            let tally = Tally {
                count: 0,
                sum: 0,
                n: 0,
                min: float::INFINITY_BITS,
                max: float::NEG_INFINITY_BITS,
            };
            resolved.push(
                ResolvedAgg { func: a.func.clone_func(), core, label: resolve_label(a), tally },
            );
            i = i + 1;
        }
        AggAccumulator { resolved, clause: Ghost(cv), records: Ghost(Seq::empty()) }
    }

    /// Lets the metrics see a record that passes a condition. Says whether it does.
    pub fn observe_if<
        L: Fn(&Record, &(String, FilterOp, Value)) -> bool,
        P: Fn(&Fields, &str) -> Option<Value>,
        A: Fn(u64, u64) -> u64,
        S: Fn(&[u64]) -> u64,
        Q: Fn(u64, u64) -> u64,
        W: Fn(u64) -> String,
    >(
        &mut self,
        ops: &AggOps<L, P, A, S, Q, W>,
        condition: &Option<FilterExpr>,
        record: &Record,
    ) -> (passed: bool)
        requires
            ops.sound(),
            selection::bound(filter::opt_expr_view(*condition)),
            old(self).tallies(*ops),
            old(self).seen().len() < i64::MAX,
        ensures
            passed == ops.passes(filter::opt_expr_view(*condition), record@),
            final(self).metrics() == old(self).metrics(),
            final(self).seen() == if passed {
                old(self).seen().push(record@)
            } else {
                old(self).seen()
            },
            final(self).tallies(*ops),
    {
        let passed = selection::record_passes(&ops.matches, condition, record);
        if passed {
            self.observe(ops, record);
        }
        passed
    }

    /// Lets the metrics see a record.
    pub fn observe<
        L: Fn(&Record, &(String, FilterOp, Value)) -> bool,
        P: Fn(&Fields, &str) -> Option<Value>,
        A: Fn(u64, u64) -> u64,
        S: Fn(&[u64]) -> u64,
        Q: Fn(u64, u64) -> u64,
        W: Fn(u64) -> String,
    >(&mut self, ops: &AggOps<L, P, A, S, Q, W>, record: &Record)
        requires
            ops.sound(),
            old(self).tallies(*ops),
            old(self).seen().len() < i64::MAX,
        ensures
            final(self).metrics() == old(self).metrics(),
            final(self).seen() == old(self).seen().push(record@),
            final(self).tallies(*ops),
    {
        proof {
            use_type_invariant(&*self);
        }
        let ghost cv = self.clause@;
        let ghost rs = self.records@;
        let ghost more = rs.push(record@);
        let mut rest = AggAccumulator {
            resolved: Vec::new(),
            clause: Ghost(Seq::empty()),
            records: Ghost(Seq::empty()),
        };
        std::mem::swap(self, &mut rest);
        let mut resolved = rest.resolved;
        let ghost start = resolved@;
        let mut i: usize = 0;
        while i < resolved.len()
            invariant
                ops.sound(),
                rs.len() < i64::MAX,
                more == rs.push(record@),
                i <= resolved@.len(),
                resolved@.len() == start.len(),
                start.len() == cv.len(),
                forall|j: int|
                    0 <= j < start.len() ==> (#[trigger] resolved@[j]).func@ == cv[j].func
                        && resolved@[j].label@ == label_of(cv[j]) && prepared(
                        resolved@[j].core,
                        cv[j].filter,
                    ),
                forall|j: int|
                    0 <= j < i ==> ops.tallied(cv[j], more, (#[trigger] resolved@[j]).tally),
                forall|j: int|
                    i <= j < start.len() ==> ops.tallied(
                        cv[j],
                        rs,
                        (#[trigger] resolved@[j]).tally,
                    ),
            decreases resolved@.len() - i,
        {
            let passes = match &resolved[i].core {
                Some(c) => ops.record_passes(c, record),
                None => true,
            };
            let ghost a = cv[i as int];
            assert(passes == ops.passes(a.filter, record@));
            let func = resolved[i].func.clone_func();
            let mut t = Tally {
                count: resolved[i].tally.count,
                sum: resolved[i].tally.sum,
                n: resolved[i].tally.n,
                min: resolved[i].tally.min,
                max: resolved[i].tally.max,
            };
            if passes {
                ops.tally(&func, &mut t, record, Ghost(a), Ghost(rs));
            } else {
                assert(more.drop_last() =~= rs);
            }
            resolved[i].tally = t;
            i = i + 1;
        }
        *self = AggAccumulator { resolved, clause: Ghost(cv), records: Ghost(more) };
    }

    /// What the metrics of the records are.
    pub fn finalize<
        L: Fn(&Record, &(String, FilterOp, Value)) -> bool,
        P: Fn(&Fields, &str) -> Option<Value>,
        A: Fn(u64, u64) -> u64,
        S: Fn(&[u64]) -> u64,
        Q: Fn(u64, u64) -> u64,
        W: Fn(u64) -> String,
    >(self, ops: &AggOps<L, P, A, S, Q, W>) -> (r: Fields)
        requires
            ops.sound(),
            self.tallies(*ops),
            self.seen().len() <= i64::MAX,
        ensures
            record::fields_view(r@) == ops.metric_values(self.metrics(), self.seen()),
    {
        proof {
            use_type_invariant(&self);
        }
        let ghost cv = self.clause@;
        let ghost rs = self.records@;
        let mut out: Fields = SortedMap::new();
        let mut i: usize = 0;
        proof {
            assert(cv.take(0) =~= Seq::<AggregateV>::empty());
            assert(record::fields_view(out@) =~= Map::<Seq<char>, ValueV>::empty());
        }
        while i < self.resolved.len()
            invariant
                ops.sound(),
                rs.len() <= i64::MAX,
                self.tallies(*ops),
                cv == self.clause@,
                rs == self.records@,
                i <= self.resolved@.len(),
                self.resolved@.len() == cv.len(),
                forall|j: int|
                    0 <= j < cv.len() ==> (#[trigger] self.resolved@[j]).func@ == cv[j].func
                        && self.resolved@[j].label@ == label_of(cv[j]),
                record::fields_view(out@) == ops.metric_values(cv.take(i as int), rs),
            decreases self.resolved@.len() - i,
        {
            let ra = &self.resolved[i];
            let ghost a = cv[i as int];
            let ghost sel = ops.picked(a.filter, rs);
            proof {
                assert(cv.take(i + 1).drop_last() =~= cv.take(i as int));
                assert(cv.take(i + 1).last() == a);
                assert(ops.tallied(a, rs, ra.tally));
                ops.lemma_picked_size(a.filter, rs);
            }
            let v = match &ra.func {
                AggregateFunc::Count => Some(Value::Int(ra.tally.count)),
                AggregateFunc::Sum(_) => Some(Value::Float(ra.tally.sum)),
                AggregateFunc::Avg(f) => {
                    proof {
                        ops.lemma_numbers_size(f@, sel);
                    }
                    let avg: u64 = if ra.tally.n == 0 {
                        0
                    } else {
                        ops.divide_double(ra.tally.sum, ra.tally.n)
                    };
                    Some(Value::Float(avg))
                },
                AggregateFunc::Min(_) => if float::finite(ra.tally.min) {
                    Some(Value::Float(ra.tally.min))
                } else {
                    None
                },
                AggregateFunc::Max(_) => if float::finite(ra.tally.max) {
                    Some(Value::Float(ra.tally.max))
                } else {
                    None
                },
            };
            assert(value::opt_view(v) == ops.metric_value(a, rs));
            if let Some(x) = v {
                let ghost before = record::fields_view(out@);
                let ghost xv = x@;
                out.insert(ra.label.clone(), x);
                assert(record::fields_view(out@) =~= before.insert(label_of(a), xv));
            }
            i = i + 1;
        }
        assert(cv.take(i as int) =~= cv);
        out
    }
}

/// What records stand for.
pub open spec fn records_view(s: Seq<Record>) -> Seq<RecordV> {
    s.map_values(|r: Record| r@)
}

impl<
    L: Fn(&Record, &(String, FilterOp, Value)) -> bool,
    P: Fn(&Fields, &str) -> Option<Value>,
    A: Fn(u64, u64) -> u64,
    S: Fn(&[u64]) -> u64,
    Q: Fn(u64, u64) -> u64,
    W: Fn(u64) -> String,
> AggOps<L, P, A, S, Q, W> {
    /// The number in a field of a record, if there is one.
    pub open spec fn number_in(r: RecordV, field: Seq<char>) -> Option<u64> {
        if r.fields.contains_key(field) {
            value::number(r.fields[field])
        } else {
            None
        }
    }

    /// The numbers in a field, in the order of the records.
    pub open spec fn numbers_in(field: Seq<char>, rs: Seq<RecordV>) -> Seq<u64>
        decreases rs.len(),
    {
        if rs.len() == 0 {
            Seq::empty()
        } else {
            match Self::number_in(rs.last(), field) {
                Some(x) => Self::numbers_in(field, rs.drop_last()).push(x),
                None => Self::numbers_in(field, rs.drop_last()),
            }
        }
    }

    /// What a metric of records at hand is; a minimum or maximum only where it
    /// is finite.
    pub open spec fn whole_value(&self, a: AggregateV, rs: Seq<RecordV>) -> Option<ValueV> {
        let sel = self.picked(a.filter, rs);
        match a.func {
            AggregateFuncV::Count => Some(ValueV::Int(sel.len() as i64)),
            AggregateFuncV::Sum(f) => Some(ValueV::Float(self.sum_of(Self::numbers_in(f, sel)))),
            AggregateFuncV::Avg(f) => {
                let xs = Self::numbers_in(f, sel);
                Some(
                    ValueV::Float(
                        if xs.len() == 0 {
                            0
                        } else {
                            self.divided(self.sum_of(xs), xs.len() as u64)
                        },
                    ),
                )
            },
            AggregateFuncV::Min(f) => finite_value(least(Self::numbers_in(f, sel))),
            AggregateFuncV::Max(f) => finite_value(greatest(Self::numbers_in(f, sel))),
        }
    }

    /// What metrics of records at hand are, by their names.
    pub open spec fn whole_values(&self, s: Seq<AggregateV>, rs: Seq<RecordV>) -> Map<
        Seq<char>,
        ValueV,
    >
        decreases s.len(),
    {
        if s.len() == 0 {
            Map::empty()
        } else {
            let before = self.whole_values(s.drop_last(), rs);
            match self.whole_value(s.last(), rs) {
                Some(v) => before.insert(label_of(s.last()), v),
                None => before,
            }
        }
    }

    /// The numbers in a field of the records that pass a filter, and how many
    /// pass it.
    fn collect(&self, records: &Vec<Record>, core: &Option<CoreFilterExpr>, field: Option<&str>, Ghost(
        f,
    ): Ghost<Option<FilterExprV>>) -> (r: (usize, Vec<u64>))
        requires
            self.sound(),
            prepared(*core, f),
        ensures
            r.0 == self.picked(f, records_view(records@)).len(),
            field matches Some(n) ==> r.1@ == Self::numbers_in(
                n@,
                self.picked(f, records_view(records@)),
            ),
            r.1@.len() <= records@.len(),
    {
        let ghost rv = records_view(records@);
        let mut n: usize = 0;
        let mut xs: Vec<u64> = Vec::new();
        let mut i: usize = 0;
        assert(rv.take(0) =~= Seq::<RecordV>::empty());
        while i < records.len()
            invariant
                self.sound(),
                prepared(*core, f),
                i <= records@.len(),
                rv == records_view(records@),
                n == self.picked(f, rv.take(i as int)).len(),
                n <= i,
                xs@.len() <= i,
                field matches Some(name) ==> xs@ == Self::numbers_in(
                    name@,
                    self.picked(f, rv.take(i as int)),
                ),
            decreases records@.len() - i,
        {
            let r = &records[i];
            proof {
                assert(rv.take(i + 1).drop_last() =~= rv.take(i as int));
                assert(rv.take(i + 1).last() == r@);
            }
            let passes = match core {
                Some(c) => self.record_passes(c, r),
                None => true,
            };
            assert(passes == self.passes(f, r@));
            if passes {
                let ghost sel = self.picked(f, rv.take(i as int));
                assert(sel.push(r@).drop_last() =~= sel);
                n = n + 1;
                if let Some(name) = field {
                    if let Some(v) = r.fields.get(name) {
                        assert(r@.fields[name@] == v@);
                        if let Some(x) = value::numeric_value(v) {
                            xs.push(x);
                        }
                    }
                }
            }
            i = i + 1;
        }
        assert(rv.take(i as int) =~= rv);
        (n, xs)
    }

    /// The metrics of a clause over records at hand, by their names; a clause
    /// with ambiguous names is refused.
    pub fn execute_aggregate(&self, records: &Vec<Record>, aggs: &Vec<Aggregate>) -> (r: Result<
        Fields,
        XyzError,
    >)
        requires
            self.sound(),
            aggregates_bound(aggregates_view(aggs@)),
            records@.len() <= i64::MAX,
        ensures
            match r {
                Ok(m) => clear_before(aggregates_view(aggs@), aggs@.len() as int)
                    && record::fields_view(m@) == self.whole_values(
                    aggregates_view(aggs@),
                    records_view(records@),
                ),
                Err(e) => e matches XyzError::Parse(m) && refuses_labels(
                    aggregates_view(aggs@),
                    m@,
                ),
            },
    {
        let labels = match resolve_labels(aggs) {
            Ok(v) => v,
            Err(m) => {
                return Err(XyzError::Parse(m));
            },
        };
        let ghost cv = aggregates_view(aggs@);
        let ghost rv = records_view(records@);
        let mut out: Fields = SortedMap::new();
        let mut i: usize = 0;
        proof {
            assert(text::names(labels@).len() == cv.len());
            assert(cv.take(0) =~= Seq::<AggregateV>::empty());
            assert(record::fields_view(out@) =~= Map::<Seq<char>, ValueV>::empty());
        }
        while i < aggs.len()
            invariant
                self.sound(),
                aggregates_bound(cv),
                cv == aggregates_view(aggs@),
                rv == records_view(records@),
                records@.len() <= i64::MAX,
                labels@.len() == aggs@.len(),
                text::names(labels@) == labels_of(cv),
                i <= aggs@.len(),
                record::fields_view(out@) == self.whole_values(cv.take(i as int), rv),
            decreases aggs@.len() - i,
        {
            let agg = &aggs[i];
            let ghost a = cv[i as int];
            proof {
                assert(a == agg@);
                assert(cv.take(i + 1).drop_last() =~= cv.take(i as int));
                assert(cv.take(i + 1).last() == a);
                assert(text::names(labels@)[i as int] == labels@[i as int]@);
                assert(labels_of(cv)[i as int] == label_of(a));
                self.lemma_picked_size(a.filter, rv);
            }
            let core = match &agg.filter {
                Some(e) => Some(filter::to_core_expr(e)),
                None => None,
            };
            let field = match &agg.func {
                AggregateFunc::Count => None,
                AggregateFunc::Sum(f) => Some(f.as_str()),
                AggregateFunc::Avg(f) => Some(f.as_str()),
                AggregateFunc::Min(f) => Some(f.as_str()),
                AggregateFunc::Max(f) => Some(f.as_str()),
            };
            let (n, xs) = self.collect(records, &core, field, Ghost(a.filter));
            let v = match &agg.func {
                AggregateFunc::Count => Some(Value::Int(n as i64)),
                AggregateFunc::Sum(_) => Some(Value::Float(self.sum_doubles(xs.as_slice()))),
                AggregateFunc::Avg(_) => {
                    let avg: u64 = if xs.len() == 0 {
                        0
                    } else {
                        let sum: u64 = self.sum_doubles(xs.as_slice());
                        self.divide_double(sum, xs.len() as u64)
                    };
                    Some(Value::Float(avg))
                },
                AggregateFunc::Min(_) => finite_number(least_of(xs.as_slice())),
                AggregateFunc::Max(_) => finite_number(greatest_of(xs.as_slice())),
            };
            assert(value::opt_view(v) == self.whole_value(a, rv));
            if let Some(x) = v {
                let ghost before = record::fields_view(out@);
                let ghost xv = x@;
                out.insert(labels[i].clone(), x);
                assert(record::fields_view(out@) =~= before.insert(label_of(a), xv));
            }
            i = i + 1;
        }
        assert(cv.take(i as int) =~= cv);
        Ok(out)
    }

    /// For the field of a metric, a path is the name of a field and adding one by
    /// one gives the sum.
    pub open spec fn reads_plainly(&self, a: AggregateV, rs: Seq<RecordV>) -> bool {
        let sel = self.picked(a.filter, rs);
        match a.func {
            AggregateFuncV::Count => true,
            AggregateFuncV::Sum(f) => self.names_a_field(f, sel) && self.adds_in_order(f, sel),
            AggregateFuncV::Avg(f) => self.names_a_field(f, sel) && self.adds_in_order(f, sel),
            AggregateFuncV::Min(f) => self.names_a_field(f, sel),
            AggregateFuncV::Max(f) => self.names_a_field(f, sel),
        }
    }

    /// In these records the path leads to the field of that name.
    pub open spec fn names_a_field(&self, path: Seq<char>, rs: Seq<RecordV>) -> bool {
        forall|i: int|
            0 <= i < rs.len() ==> self.value_at((#[trigger] rs[i]).fields, path)
                == if rs[i].fields.contains_key(path) {
                Some(rs[i].fields[path])
            } else {
                None
            }
    }

    /// The sum of the field's numbers is what adding one after the other gives.
    pub open spec fn adds_in_order(&self, field: Seq<char>, rs: Seq<RecordV>) -> bool {
        let xs = Self::numbers_in(field, rs);
        self.sum_of(xs) == self.running_sum(xs)
    }

    /// Computing record by record gives what computing over all records at hand
    /// gives, where for each metric's own field the path is the name of a field
    /// and adding one by one gives the sum.
    pub proof fn law_streaming_is_whole(&self, s: Seq<AggregateV>, rs: Seq<RecordV>)
        requires
            forall|i: int| 0 <= i < s.len() ==> self.reads_plainly(#[trigger] s[i], rs),
        ensures
            self.metric_values(s, rs) == self.whole_values(s, rs),
        decreases s.len(),
    {
        if s.len() > 0 {
            let d = s.drop_last();
            assert forall|i: int| 0 <= i < d.len() implies self.reads_plainly(
                #[trigger] d[i],
                rs,
            ) by {
                assert(d[i] == s[i]);
            }
            self.law_streaming_is_whole(d, rs);
            assert(self.reads_plainly(s[s.len() - 1], rs));
            let sel = self.picked(s.last().filter, rs);
            match s.last().func {
                AggregateFuncV::Count => {},
                AggregateFuncV::Sum(f) => self.lemma_numbers_agree(f, sel),
                AggregateFuncV::Avg(f) => self.lemma_numbers_agree(f, sel),
                AggregateFuncV::Min(f) => self.lemma_numbers_agree(f, sel),
                AggregateFuncV::Max(f) => self.lemma_numbers_agree(f, sel),
            }
        }
    }

    proof fn lemma_numbers_agree(&self, field: Seq<char>, rs: Seq<RecordV>)
        requires
            self.names_a_field(field, rs),
        ensures
            self.numbers_at(field, rs) == Self::numbers_in(field, rs),
        decreases rs.len(),
    {
        if rs.len() > 0 {
            let d = rs.drop_last();
            assert(rs[rs.len() - 1] == rs.last());
            assert forall|i: int| 0 <= i < d.len() implies self.value_at(
                (#[trigger] d[i]).fields,
                field,
            ) == if d[i].fields.contains_key(field) {
                Some(d[i].fields[field])
            } else {
                None
            } by {
                assert(d[i] == rs[i]);
            }
            self.lemma_numbers_agree(field, d);
        }
    }

    /// Where each record is seen if it passes, what was seen of the records are those
    /// picked.
    pub proof fn law_observed_is_picked(
        &self,
        f: Option<FilterExprV>,
        rs: Seq<RecordV>,
        r: RecordV,
    )
        ensures
            self.picked(f, Seq::empty()) == Seq::<RecordV>::empty(),
            self.picked(f, rs.push(r)) == if self.passes(f, r) {
                self.picked(f, rs).push(r)
            } else {
                self.picked(f, rs)
            },
    {
        assert(rs.push(r).drop_last() =~= rs);
    }

    /// The records picked are exactly those that pass: what is computed over them
    /// counts no other record and leaves none of them out.
    pub proof fn law_picked_pass(&self, f: Option<FilterExprV>, rs: Seq<RecordV>)
        ensures
            forall|i: int|
                0 <= i < self.picked(f, rs).len() ==> self.passes(
                    f,
                    #[trigger] self.picked(f, rs)[i],
                ) && rs.contains(self.picked(f, rs)[i]),
            forall|i: int|
                0 <= i < rs.len() && self.passes(f, #[trigger] rs[i]) ==> self.picked(
                    f,
                    rs,
                ).contains(rs[i]),
        decreases rs.len(),
    {
        if rs.len() > 0 {
            let d = rs.drop_last();
            let p = self.picked(f, rs);
            let q = self.picked(f, d);
            self.law_picked_pass(f, d);
            assert forall|i: int| 0 <= i < p.len() implies self.passes(f, #[trigger] p[i])
                && rs.contains(p[i]) by {
                if i < q.len() {
                    assert(p[i] == q[i]);
                    let j = choose|j: int| 0 <= j < d.len() && d[j] == q[i];
                    assert(rs[j] == p[i]);
                } else {
                    assert(rs[rs.len() - 1] == p[i]);
                }
            }
            assert forall|i: int| 0 <= i < rs.len() && self.passes(f, #[trigger] rs[i]) implies
                p.contains(rs[i]) by {
                if i < d.len() {
                    assert(d[i] == rs[i]);
                    assert(q.contains(d[i]));
                    let j = choose|j: int| 0 <= j < q.len() && q[j] == d[i];
                    assert(p[j] == rs[i]);
                } else {
                    assert(p[p.len() - 1] == rs[i]);
                }
            }
        }
    }
}

/// A number as a value, where it is finite.
fn finite_number(x: u64) -> (r: Option<Value>)
    ensures
        value::opt_view(r) == finite_value(x),
{
    if float::finite(x) {
        Some(Value::Float(x))
    } else {
        None
    }
}

/// The least of numbers; infinity without any.
fn least_of(xs: &[u64]) -> (r: u64)
    ensures
        r == least(xs@),
{
    let mut m: u64 = float::INFINITY_BITS;
    let mut i: usize = 0;
    assert(xs@.take(0) =~= Seq::<u64>::empty());
    while i < xs.len()
        invariant
            i <= xs@.len(),
            m == least(xs@.take(i as int)),
        decreases xs@.len() - i,
    {
        assert(xs@.take(i + 1).drop_last() =~= xs@.take(i as int));
        if float::less(xs[i], m) {
            m = xs[i];
        }
        i = i + 1;
    }
    assert(xs@.take(i as int) =~= xs@);
    m
}

/// The greatest of numbers; negative infinity without any.
fn greatest_of(xs: &[u64]) -> (r: u64)
    ensures
        r == greatest(xs@),
{
    let mut m: u64 = float::NEG_INFINITY_BITS;
    let mut i: usize = 0;
    assert(xs@.take(0) =~= Seq::<u64>::empty());
    while i < xs.len()
        invariant
            i <= xs@.len(),
            m == greatest(xs@.take(i as int)),
        decreases xs@.len() - i,
    {
        assert(xs@.take(i + 1).drop_last() =~= xs@.take(i as int));
        if float::less(m, xs[i]) {
            m = xs[i];
        }
        i = i + 1;
    }
    assert(xs@.take(i as int) =~= xs@);
    m
}

/// A copy of metrics.
pub fn clone_aggregates(s: &Vec<Aggregate>) -> (r: Vec<Aggregate>)
    ensures
        aggregates_view(r@) == aggregates_view(s@),
{
    let mut r: Vec<Aggregate> = Vec::new();
    let mut i: usize = 0;
    while i < s.len()
        invariant
            i <= s@.len(),
            r@.len() == i,
            forall|j: int| 0 <= j < i ==> (#[trigger] r@[j])@ == s@[j]@,
        decreases s@.len() - i,
    {
        let a = &s[i];
        r.push(
            Aggregate {
                func: a.func.clone_func(),
                alias: match &a.alias {
                    Some(n) => Some(n.clone()),
                    None => None,
                },
                filter: crate::aggregate_state::clone_opt_expr(&a.filter),
            },
        );
        i = i + 1;
    }
    assert(aggregates_view(r@) =~= aggregates_view(s@));
    r
}

// ---------------------------------------------------------------------------
// What the metrics are
// ---------------------------------------------------------------------------
/// The value is the number `x`: a double, or an integer that rounds to it.
pub open spec fn is_number(v: Option<ValueV>, x: u64) -> bool {
    match v {
        Some(ValueV::Float(y)) => y == x,
        Some(ValueV::Int(n)) => float::int_double(n) == x,
        _ => false,
    }
}

/// The value is an integer or a double.
pub open spec fn is_numeric(v: Option<ValueV>) -> bool {
    v matches Some(y) && (y is Int || y is Float)
}

/// The value of a field of a record.
pub open spec fn field_of(r: RecordV, field: Seq<char>) -> Option<ValueV> {
    if r.fields.contains_key(field) {
        Some(r.fields[field])
    } else {
        None
    }
}

/// The records with a number in the field, in their order.
pub open spec fn with_number(rs: Seq<RecordV>, field: Seq<char>) -> Seq<RecordV> {
    rs.filter(|r: RecordV| is_numeric(field_of(r, field)))
}

proof fn lemma_least(xs: Seq<u64>)
    ensures
        !float::is_nan(least(xs)),
        least(xs) == float::INFINITY_BITS || xs.contains(least(xs)),
        forall|i: int| 0 <= i < xs.len() ==> !float::float_lt(#[trigger] xs[i], least(xs)),
    decreases xs.len(),
{
    if xs.len() > 0 {
        let d = xs.drop_last();
        lemma_least(d);
        assert(xs[xs.len() - 1] == xs.last());
        if d.contains(least(d)) {
            let j = choose|j: int| 0 <= j < d.len() && d[j] == least(d);
            assert(xs[j] == least(d));
        }
        assert forall|i: int| 0 <= i < xs.len() implies !float::float_lt(
            #[trigger] xs[i],
            least(xs),
        ) by {
            if i < d.len() {
                assert(d[i] == xs[i]);
            }
        }
    }
}

proof fn lemma_greatest(xs: Seq<u64>)
    ensures
        !float::is_nan(greatest(xs)),
        greatest(xs) == float::NEG_INFINITY_BITS || xs.contains(greatest(xs)),
        forall|i: int| 0 <= i < xs.len() ==> !float::float_lt(greatest(xs), #[trigger] xs[i]),
    decreases xs.len(),
{
    if xs.len() > 0 {
        let d = xs.drop_last();
        lemma_greatest(d);
        assert(xs[xs.len() - 1] == xs.last());
        if d.contains(greatest(d)) {
            let j = choose|j: int| 0 <= j < d.len() && d[j] == greatest(d);
            assert(xs[j] == greatest(d));
        }
        assert forall|i: int| 0 <= i < xs.len() implies !float::float_lt(
            greatest(xs),
            #[trigger] xs[i],
        ) by {
            if i < d.len() {
                assert(d[i] == xs[i]);
            }
        }
    }
}

/// The answer `v` is the least of the values that are numbers: it is one of them, and
/// none of them is less. There is one where some number is finite and none is less
/// than every finite one.
pub open spec fn is_least_of(v: Option<ValueV>, values: Seq<Option<ValueV>>) -> bool {
    &&& v is Some <==> {
        &&& exists|i: int, x: u64|
            0 <= i < values.len() && #[trigger] is_number(values[i], x) && float::is_finite(x)
        &&& forall|i: int|
            0 <= i < values.len() ==> !is_number(#[trigger] values[i], float::NEG_INFINITY_BITS)
    }
    &&& v is Some ==> {
        let m = v->Some_0->Float_0;
        &&& v->Some_0 is Float
        &&& float::is_finite(m)
        &&& exists|i: int| 0 <= i < values.len() && is_number(#[trigger] values[i], m)
        &&& forall|i: int, x: u64|
            0 <= i < values.len() && #[trigger] is_number(values[i], x) ==> !float::float_lt(x, m)
    }
}

/// The answer `v` is the greatest of the values that are numbers: it is one of them,
/// and none of them is greater. There is one where some number is finite and none is
/// greater than every finite one.
pub open spec fn is_greatest_of(v: Option<ValueV>, values: Seq<Option<ValueV>>) -> bool {
    &&& v is Some <==> {
        &&& exists|i: int, x: u64|
            0 <= i < values.len() && #[trigger] is_number(values[i], x) && float::is_finite(x)
        &&& forall|i: int|
            0 <= i < values.len() ==> !is_number(#[trigger] values[i], float::INFINITY_BITS)
    }
    &&& v is Some ==> {
        let m = v->Some_0->Float_0;
        &&& v->Some_0 is Float
        &&& float::is_finite(m)
        &&& exists|i: int| 0 <= i < values.len() && is_number(#[trigger] values[i], m)
        &&& forall|i: int, x: u64|
            0 <= i < values.len() && #[trigger] is_number(values[i], x) ==> !float::float_lt(m, x)
    }
}

/// The numbers among the values are those of the list.
spec fn lists_numbers(xs: Seq<u64>, values: Seq<Option<ValueV>>) -> bool {
    forall|x: u64| #[trigger]
        xs.contains(x) <==> exists|i: int|
            0 <= i < values.len() && is_number(#[trigger] values[i], x)
}

proof fn lemma_extremes(xs: Seq<u64>, values: Seq<Option<ValueV>>)
    requires
        lists_numbers(xs, values),
    ensures
        is_least_of(finite_value(least(xs)), values),
        is_greatest_of(finite_value(greatest(xs)), values),
{
    lemma_least(xs);
    lemma_greatest(xs);
    let lo = least(xs);
    let hi = greatest(xs);
    assert forall|i: int, x: u64|
        0 <= i < values.len() && #[trigger] is_number(values[i], x) implies !float::float_lt(x, lo)
        && !float::float_lt(hi, x) by {
        assert(xs.contains(x));
        let j = choose|j: int| 0 <= j < xs.len() && xs[j] == x;
        assert(!float::float_lt(xs[j], lo));
        assert(!float::float_lt(hi, xs[j]));
    }
    if xs.contains(lo) {
        assert(exists|i: int| 0 <= i < values.len() && is_number(#[trigger] values[i], lo));
    }
    if xs.contains(hi) {
        assert(exists|i: int| 0 <= i < values.len() && is_number(#[trigger] values[i], hi));
    }
}

proof fn lemma_listed_step(xs: Seq<u64>, values: Seq<Option<ValueV>>, v: Option<ValueV>)
    requires
        lists_numbers(xs, values),
    ensures
        forall|x: u64|
            is_number(v, x) ==> #[trigger] lists_numbers(xs.push(x), values.push(v)),
        !is_numeric(v) ==> lists_numbers(xs, values.push(v)),
{
    let more = values.push(v);
    assert forall|x: u64| is_number(v, x) implies #[trigger] lists_numbers(xs.push(x), more) by {
        assert forall|y: u64| #[trigger] xs.push(x).contains(y) <==> exists|i: int|
            0 <= i < more.len() && is_number(#[trigger] more[i], y) by {
            if xs.push(x).contains(y) {
                let j = choose|j: int| 0 <= j < xs.push(x).len() && xs.push(x)[j] == y;
                if j < xs.len() {
                    assert(xs[j] == y);
                    assert(xs.contains(y));
                    let i = choose|i: int| 0 <= i < values.len() && is_number(#[trigger] values[i], y);
                    assert(is_number(more[i], y));
                } else {
                    assert(is_number(more[values.len() as int], y));
                }
            }
            if exists|i: int| 0 <= i < more.len() && is_number(#[trigger] more[i], y) {
                let i = choose|i: int| 0 <= i < more.len() && is_number(#[trigger] more[i], y);
                if i < values.len() {
                    assert(is_number(values[i], y));
                    assert(xs.contains(y));
                    let j = choose|j: int| 0 <= j < xs.len() && xs[j] == y;
                    assert(xs.push(x)[j] == y);
                } else {
                    assert(xs.push(x)[xs.len() as int] == y);
                }
            }
        }
    }
    if !is_numeric(v) {
        assert forall|y: u64| #[trigger] xs.contains(y) <==> exists|i: int|
            0 <= i < more.len() && is_number(#[trigger] more[i], y) by {
            if xs.contains(y) {
                let i = choose|i: int| 0 <= i < values.len() && is_number(#[trigger] values[i], y);
                assert(is_number(more[i], y));
            }
            if exists|i: int| 0 <= i < more.len() && is_number(#[trigger] more[i], y) {
                let i = choose|i: int| 0 <= i < more.len() && is_number(#[trigger] more[i], y);
                assert(i < values.len());
                assert(is_number(values[i], y));
            }
        }
    }
}

impl<
    L: Fn(&Record, &(String, FilterOp, Value)) -> bool,
    P: Fn(&Fields, &str) -> Option<Value>,
    A: Fn(u64, u64) -> u64,
    S: Fn(&[u64]) -> u64,
    Q: Fn(u64, u64) -> u64,
    W: Fn(u64) -> String,
> AggOps<L, P, A, S, Q, W> {
    /// The values at a path are what the storage layer reads there, and the arithmetic
    /// is what was handed in.
    pub proof fn law_computations_are_handed_in(
        &self,
        f: &Fields,
        path: &str,
        v: Option<Value>,
        x: u64,
        y: u64,
        sum: u64,
        quotient: u64,
        xs: &[u64],
        total: u64,
        shown: String,
    )
        requires
            self.sound(),
            self.resolve.ensures((f, path), v),
            self.add.ensures((x, y), sum),
            self.divide.ensures((x, y), quotient),
            self.sum.ensures((xs,), total),
            self.show_float.ensures((x,), shown),
        ensures
            self.value_at(record::fields_view(f@), path@) == value::opt_view(v),
            self.added(x, y) == sum,
            self.divided(x, y) == quotient,
            self.sum_of(xs@) == total,
            self.float_text(x) == shown@,
    {
        assert(self.is_at(record::fields_view(f@), path@, value::opt_view(v)));
        assert(self.is_sum(xs@, total));
        assert(self.is_float_text(x, shown@));
    }

    /// The values at a path of the records that pass a filter, in their order.
    pub open spec fn values_of(
        &self,
        f: Option<FilterExprV>,
        rs: Seq<RecordV>,
        path: Seq<char>,
    ) -> Seq<Option<ValueV>> {
        rs.filter(|r: RecordV| self.passes(f, r)).map_values(
            |r: RecordV| self.value_at(r.fields, path),
        )
    }

    /// The values of a field of the records that pass a filter, in their order.
    pub open spec fn field_values_of(
        &self,
        f: Option<FilterExprV>,
        rs: Seq<RecordV>,
        field: Seq<char>,
    ) -> Seq<Option<ValueV>> {
        rs.filter(|r: RecordV| self.passes(f, r)).map_values(|r: RecordV| field_of(r, field))
    }

    proof fn lemma_picked_filters(&self, f: Option<FilterExprV>, rs: Seq<RecordV>)
        ensures
            self.picked(f, rs) == rs.filter(|r: RecordV| self.passes(f, r)),
        decreases rs.len(),
    {
        reveal(Seq::filter);
        if rs.len() > 0 {
            self.lemma_picked_filters(f, rs.drop_last());
        }
    }

    proof fn lemma_numbers_listed(&self, path: Seq<char>, rs: Seq<RecordV>)
        ensures
            lists_numbers(
                self.numbers_at(path, rs),
                rs.map_values(|r: RecordV| self.value_at(r.fields, path)),
            ),
            lists_numbers(
                Self::numbers_in(path, rs),
                rs.map_values(|r: RecordV| field_of(r, path)),
            ),
        decreases rs.len(),
    {
        let values = rs.map_values(|r: RecordV| self.value_at(r.fields, path));
        let fields = rs.map_values(|r: RecordV| field_of(r, path));
        if rs.len() > 0 {
            let d = rs.drop_last();
            let r = rs.last();
            self.lemma_numbers_listed(path, d);
            let dv = d.map_values(|r: RecordV| self.value_at(r.fields, path));
            let df = d.map_values(|r: RecordV| field_of(r, path));
            assert(values =~= dv.push(self.value_at(r.fields, path)));
            assert(fields =~= df.push(field_of(r, path)));
            lemma_listed_step(self.numbers_at(path, d), dv, self.value_at(r.fields, path));
            lemma_listed_step(Self::numbers_in(path, d), df, field_of(r, path));
        }
    }

    /// What a minimum answers is one of the numbers of the field, of the records that
    /// pass, and none of them is less; what a maximum answers is one of them, and none
    /// is greater. So it is whether the records come one by one or are at hand.
    pub proof fn law_extremes(&self, a: AggregateV, rs: Seq<RecordV>)
        ensures
            a.func matches AggregateFuncV::Min(f) ==> is_least_of(
                self.metric_value(a, rs),
                self.values_of(a.filter, rs, f),
            ),
            a.func matches AggregateFuncV::Max(f) ==> is_greatest_of(
                self.metric_value(a, rs),
                self.values_of(a.filter, rs, f),
            ),
            a.func matches AggregateFuncV::Min(f) ==> is_least_of(
                self.whole_value(a, rs),
                self.field_values_of(a.filter, rs, f),
            ),
            a.func matches AggregateFuncV::Max(f) ==> is_greatest_of(
                self.whole_value(a, rs),
                self.field_values_of(a.filter, rs, f),
            ),
    {
        self.lemma_picked_filters(a.filter, rs);
        let sel = self.picked(a.filter, rs);
        match a.func {
            AggregateFuncV::Min(f) => {
                self.lemma_numbers_listed(f, sel);
                lemma_extremes(self.numbers_at(f, sel), self.values_of(a.filter, rs, f));
                lemma_extremes(Self::numbers_in(f, sel), self.field_values_of(a.filter, rs, f));
            },
            AggregateFuncV::Max(f) => {
                self.lemma_numbers_listed(f, sel);
                lemma_extremes(self.numbers_at(f, sel), self.values_of(a.filter, rs, f));
                lemma_extremes(Self::numbers_in(f, sel), self.field_values_of(a.filter, rs, f));
            },
            _ => {},
        }
    }

    /// A count is the number of records that pass.
    pub proof fn law_count_counts(&self, a: AggregateV, rs: Seq<RecordV>)
        requires
            a.func is Count,
            rs.len() <= i64::MAX,
        ensures
            self.metric_value(a, rs) matches Some(ValueV::Int(n)) && n == rs.filter(
                |r: RecordV| self.passes(a.filter, r),
            ).len(),
            self.whole_value(a, rs) == self.metric_value(a, rs),
    {
        self.lemma_picked_filters(a.filter, rs);
        self.lemma_picked_size(a.filter, rs);
    }

    /// A sum of no record is zero. One more record adds its number to the sum if it
    /// passes and has one, and changes nothing if not.
    pub proof fn law_sum_adds(
        &self,
        a: AggregateV,
        path: Seq<char>,
        rs: Seq<RecordV>,
        r: RecordV,
        before: u64,
    )
        requires
            self.sound(),
            a.func == AggregateFuncV::Sum(path),
            self.metric_value(a, rs) == Some(ValueV::Float(before)),
        ensures
            self.metric_value(a, Seq::empty()) == Some(ValueV::Float(0)),
            !self.passes(a.filter, r) || !is_numeric(self.value_at(r.fields, path))
                ==> self.metric_value(a, rs.push(r)) == Some(ValueV::Float(before)),
            forall|x: u64, after: u64|
                self.passes(a.filter, r) && is_number(self.value_at(r.fields, path), x)
                    && #[trigger] self.add.ensures((before, x), after) ==> self.metric_value(
                    a,
                    rs.push(r),
                ) == Some(ValueV::Float(after)),
    {
        assert(rs.push(r).drop_last() =~= rs);
        let sel = self.picked(a.filter, rs);
        assert(sel.push(r).drop_last() =~= sel);
        let xs = self.numbers_at(path, sel);
        assert forall|x: u64, after: u64|
            self.passes(a.filter, r) && is_number(self.value_at(r.fields, path), x)
                && #[trigger] self.add.ensures((before, x), after) implies self.metric_value(
            a,
            rs.push(r),
        ) == Some(ValueV::Float(after)) by {
            assert(xs.push(x).drop_last() =~= xs);
        }
    }

    proof fn lemma_numbers_filter(&self, path: Seq<char>, rs: Seq<RecordV>)
        ensures
            self.numbers_at(path, rs).len() == rs.filter(
                |r: RecordV| is_numeric(self.value_at(r.fields, path)),
            ).len(),
        decreases rs.len(),
    {
        reveal(Seq::filter);
        if rs.len() > 0 {
            self.lemma_numbers_filter(path, rs.drop_last());
        }
    }

    /// An average is the sum under the same filter, divided by how many of the records
    /// that pass have a number; without such a record it is zero.
    pub proof fn law_average_divides(
        &self,
        a: AggregateV,
        s: AggregateV,
        path: Seq<char>,
        rs: Seq<RecordV>,
        total: u64,
        mean: u64,
    )
        requires
            self.sound(),
            a.func == AggregateFuncV::Avg(path),
            s.func == AggregateFuncV::Sum(path),
            s.filter == a.filter,
            rs.len() <= i64::MAX,
            self.metric_value(s, rs) == Some(ValueV::Float(total)),
        ensures
            ({
                let n = rs.filter(|r: RecordV| self.passes(a.filter, r)).filter(
                    |r: RecordV| is_numeric(self.value_at(r.fields, path)),
                ).len();
                &&& n == 0 ==> self.metric_value(a, rs) == Some(ValueV::Float(0))
                &&& n > 0 && self.divide.ensures((total, n as u64), mean) ==> self.metric_value(
                    a,
                    rs,
                ) == Some(ValueV::Float(mean))
            }),
    {
        self.lemma_picked_filters(a.filter, rs);
        self.lemma_numbers_filter(path, self.picked(a.filter, rs));
    }

    /// Of the records at hand, a sum is that of the numbers of the field, of the
    /// records that pass, and an average is that sum divided by how many there are;
    /// without a number it is zero.
    pub proof fn law_whole_sum_and_average(
        &self,
        a: AggregateV,
        field: Seq<char>,
        rs: Seq<RecordV>,
        xs: &[u64],
        total: u64,
        mean: u64,
    )
        requires
            self.sound(),
            rs.len() <= i64::MAX,
            self.sum.ensures((xs,), total),
            self.divide.ensures((total, xs@.len() as u64), mean),
            ({
                let sel = with_number(rs.filter(|r: RecordV| self.passes(a.filter, r)), field);
                &&& xs@.len() == sel.len()
                &&& forall|i: int|
                    0 <= i < sel.len() ==> is_number(field_of(#[trigger] sel[i], field), xs@[i])
            }),
        ensures
            a.func == AggregateFuncV::Sum(field) ==> self.whole_value(a, rs) == Some(
                ValueV::Float(total),
            ),
            a.func == AggregateFuncV::Avg(field) ==> self.whole_value(a, rs) == Some(
                ValueV::Float(
                    if xs@.len() == 0 {
                        0
                    } else {
                        mean
                    },
                ),
            ),
    {
        self.lemma_picked_filters(a.filter, rs);
        let sel = self.picked(a.filter, rs);
        self.lemma_numbers_in_order(field, sel, xs@);
        assert(self.is_sum(xs@, total));
    }

    proof fn lemma_numbers_in_order(&self, field: Seq<char>, rs: Seq<RecordV>, xs: Seq<u64>)
        requires
            xs.len() == with_number(rs, field).len(),
            forall|i: int|
                0 <= i < xs.len() ==> is_number(
                    field_of(#[trigger] with_number(rs, field)[i], field),
                    xs[i],
                ),
        ensures
            Self::numbers_in(field, rs) == xs,
        decreases rs.len(),
    {
        reveal(Seq::filter);
        if rs.len() > 0 {
            let d = rs.drop_last();
            let whole = with_number(rs, field);
            let part = with_number(d, field);
            if is_numeric(field_of(rs.last(), field)) {
                assert(whole == part.push(rs.last()));
                let ys = xs.drop_last();
                assert forall|i: int| 0 <= i < ys.len() implies is_number(
                    field_of(#[trigger] part[i], field),
                    ys[i],
                ) by {
                    assert(whole[i] == part[i]);
                }
                self.lemma_numbers_in_order(field, d, ys);
                assert(is_number(field_of(whole[part.len() as int], field), xs[part.len() as int]));
                assert(xs =~= ys.push(xs.last()));
            } else {
                self.lemma_numbers_in_order(field, d, xs);
            }
        } else {
            assert(xs =~= Seq::<u64>::empty());
        }
    }

    /// Under the names of metrics stand their values: one for each that has a value,
    /// and no other, where no two metrics have the same name.
    pub proof fn law_metrics_stand_under_names(&self, s: Seq<AggregateV>, rs: Seq<RecordV>)
        requires
            forall|i: int, j: int|
                0 <= i < j < s.len() ==> label_of(#[trigger] s[i]) != label_of(#[trigger] s[j]),
        ensures
            forall|i: int|
                #![trigger s[i]]
                0 <= i < s.len() ==> {
                    let m = self.metric_values(s, rs);
                    let w = self.whole_values(s, rs);
                    &&& field_in(m, label_of(s[i])) == self.metric_value(s[i], rs)
                    &&& field_in(w, label_of(s[i])) == self.whole_value(s[i], rs)
                },
            forall|label: Seq<char>| #[trigger]
                self.metric_values(s, rs).contains_key(label) ==> labels_of(s).contains(label),
            forall|label: Seq<char>| #[trigger]
                self.whole_values(s, rs).contains_key(label) ==> labels_of(s).contains(label),
        decreases s.len(),
    {
        if s.len() > 0 {
            let d = s.drop_last();
            assert forall|i: int, j: int| 0 <= i < j < d.len() implies label_of(#[trigger] d[i])
                != label_of(#[trigger] d[j]) by {
                assert(d[i] == s[i] && d[j] == s[j]);
            }
            self.law_metrics_stand_under_names(d, rs);
            let last = label_of(s.last());
            assert(s[s.len() - 1] == s.last());
            assert(labels_of(s) =~= labels_of(d).push(last));
            if labels_of(d).contains(last) {
                let j = choose|j: int| 0 <= j < d.len() && labels_of(d)[j] == last;
                assert(label_of(s[j]) != label_of(s[s.len() - 1]));
            }
            assert(!self.metric_values(d, rs).contains_key(last));
            assert(!self.whole_values(d, rs).contains_key(last));
            assert forall|label: Seq<char>| labels_of(d).contains(label) || label
                == last implies #[trigger] labels_of(s).contains(label) by {
                if label == last {
                    assert(labels_of(s)[d.len() as int] == label);
                } else {
                    let j = choose|j: int| 0 <= j < d.len() && labels_of(d)[j] == label;
                    assert(labels_of(s)[j] == label);
                }
            }
            assert forall|i: int| #![trigger s[i]] 0 <= i < s.len() implies ({
                let m = self.metric_values(s, rs);
                let w = self.whole_values(s, rs);
                &&& field_in(m, label_of(s[i])) == self.metric_value(s[i], rs)
                &&& field_in(w, label_of(s[i])) == self.whole_value(s[i], rs)
            }) by {
                if i < d.len() {
                    assert(d[i] == s[i]);
                    assert(label_of(s[i]) != label_of(s[s.len() - 1]));
                }
            }
        }
    }
}

/// What stands under a name.
pub open spec fn field_in(m: Map<Seq<char>, ValueV>, name: Seq<char>) -> Option<ValueV> {
    if m.contains_key(name) {
        Some(m[name])
    } else {
        None
    }
}

/// A metric with an alias has it as its name. Without one, different functions and
/// different fields have different names.
pub proof fn law_labels_tell_apart(a: AggregateV, b: AggregateV)
    ensures
        a.alias matches Some(n) ==> label_of(a) == n,
        a.alias is None && b.alias is None && label_of(a) == label_of(b) ==> a.func == b.func,
{
    reveal_strlit("count");
    reveal_strlit("sum(");
    reveal_strlit("avg(");
    reveal_strlit("min(");
    reveal_strlit("max(");
    reveal_strlit(")");
    if a.alias is None && b.alias is None && label_of(a) == label_of(b) {
        let x = plain_label(a.func);
        let y = plain_label(b.func);
        assert(x[0] == y[0] && x[1] == y[1]);
        let p = x.subrange(4, x.len() - 1);
        match (a.func, b.func) {
            (AggregateFuncV::Sum(f), AggregateFuncV::Sum(g)) => {
                assert(p =~= f && p =~= g);
            },
            (AggregateFuncV::Avg(f), AggregateFuncV::Avg(g)) => {
                assert(p =~= f && p =~= g);
            },
            (AggregateFuncV::Min(f), AggregateFuncV::Min(g)) => {
                assert(p =~= f && p =~= g);
            },
            (AggregateFuncV::Max(f), AggregateFuncV::Max(g)) => {
                assert(p =~= f && p =~= g);
            },
            _ => {},
        }
    }
}

/// Metrics are named without ambiguity exactly where no two have the same name and none
/// counts under a filter without an alias.
pub proof fn law_clear_metrics_have_different_names(s: Seq<AggregateV>)
    ensures
        clear_before(s, s.len() as int) <==> {
            &&& forall|i: int, j: int|
                0 <= i < j < s.len() ==> label_of(#[trigger] s[i]) != label_of(#[trigger] s[j])
            &&& forall|i: int|
                0 <= i < s.len() ==> !((#[trigger] s[i]).filter is Some && s[i].func is Count
                    && s[i].alias is None)
        },
{
    if clear_before(s, s.len() as int) {
        assert forall|i: int, j: int| 0 <= i < j < s.len() implies label_of(#[trigger] s[i])
            != label_of(#[trigger] s[j]) by {
            assert(!repeats_label(s, j));
            let before = labels_of(s).take(j);
            assert(before[i] == label_of(s[i]));
        }
        assert forall|i: int| 0 <= i < s.len() implies !((#[trigger] s[i]).filter is Some
            && s[i].func is Count && s[i].alias is None) by {
            assert(!unnamed_count(s[i]));
        }
    }
    if (forall|i: int, j: int|
        0 <= i < j < s.len() ==> label_of(#[trigger] s[i]) != label_of(#[trigger] s[j])) && (
    forall|i: int|
        0 <= i < s.len() ==> !((#[trigger] s[i]).filter is Some && s[i].func is Count
            && s[i].alias is None)) {
        assert forall|j: int| 0 <= j < s.len() implies !unnamed_count(#[trigger] s[j])
            && !repeats_label(s, j) by {
            let before = labels_of(s).take(j);
            if before.contains(label_of(s[j])) {
                let i = choose|i: int| 0 <= i < before.len() && before[i] == label_of(s[j]);
                assert(label_of(s[i]) != label_of(s[j]));
            }
        }
    }
}

} // verus!
