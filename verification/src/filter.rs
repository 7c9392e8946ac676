//! Predicates: from a statement's literals and expressions to the form that
//! is evaluated, and the one evaluator of that form.

use crate::ast;
use crate::ast::{Filter, FilterExpr, FilterExprV, FilterV, Literal, LiteralV};
use crate::float;
use crate::record;
use crate::record::FilterOp;
use crate::text;
use crate::value::{Value, ValueV};
use vstd::prelude::*;

verus! {

/// A list of floating-point literals at least this long is an embedding and
/// is stored as packed singles; shorter lists keep full precision.
pub const VECTOR_F32_MIN_DIMS: usize = 64;

// ---------------------------------------------------------------------------
// Timestamps
// ---------------------------------------------------------------------------
/// The character separates the parts of a timestamp.
pub open spec fn is_separator(c: char) -> bool {
    c == '-' || c == 'T' || c == ':'
}

/// The parts of a timestamp between its separators.
pub open spec fn timestamp_parts(s: Seq<char>) -> Seq<Seq<char>>
    decreases s.len(),
{
    if s.len() == 0 {
        seq![Seq::empty()]
    } else {
        let before = timestamp_parts(s.drop_last());
        if is_separator(s.last()) {
            before.push(Seq::empty())
        } else {
            before.drop_last().push(before.last().push(s.last()))
        }
    }
}

/// The number in part `i`, or `default` when the part is absent or not a
/// number.
pub open spec fn part_or(parts: Seq<Seq<char>>, i: int, default: int) -> int {
    if i < parts.len() {
        match text::parsed_i64(parts[i]) {
            Some(n) => n as int,
            None => default,
        }
    } else {
        default
    }
}

/// Division that drops the fraction.
pub open spec fn div_toward_zero(a: int, b: int) -> int {
    if a >= 0 {
        a / b
    } else {
        -((-a) / b)
    }
}

/// The microseconds since the epoch that a timestamp stands for, with months
/// of thirty days and a leap day every fourth year; 0 without a full date.
pub open spec fn timestamp_value(s: Seq<char>) -> int {
    let parts = timestamp_parts(s);
    if parts.len() < 3 {
        0
    } else {
        let year = part_or(parts, 0, 2026);
        let month = part_or(parts, 1, 1);
        let day = part_or(parts, 2, 1);
        let days = (year - 1970) * 365 + div_toward_zero(year - 1969, 4) + (month - 1) * 30 + day;
        let secs = days * 86400 + part_or(parts, 3, 0) * 3600 + part_or(parts, 4, 0) * 60
            + part_or(parts, 5, 0);
        secs * 1_000_000
    }
}

/// The timestamp's microseconds in 64 bits, wrapped around when they do not
/// fit.
pub open spec fn timestamp_micros(s: Seq<char>) -> i64 {
    timestamp_value(s) as i64
}

/// Where each part of a timestamp begins and ends.
fn part_bounds(chars: &Vec<char>) -> (r: Vec<(usize, usize)>)
    ensures
        r@.len() == timestamp_parts(chars@).len(),
        forall|i: int|
            #![trigger r@[i]]
            0 <= i < r@.len() ==> r@[i].0 <= r@[i].1 <= chars@.len() && chars@.subrange(
                r@[i].0 as int,
                r@[i].1 as int,
            ) == timestamp_parts(chars@)[i],
{
    let mut r: Vec<(usize, usize)> = Vec::new();
    let mut start: usize = 0;
    let mut i: usize = 0;
    proof {
        assert(chars@.take(0) =~= Seq::<char>::empty());
        assert(chars@.subrange(0, 0) =~= Seq::<char>::empty());
    }
    while i < chars.len()
        invariant
            start <= i <= chars@.len(),
            timestamp_parts(chars@.take(i as int)).len() == r@.len() + 1,
            timestamp_parts(chars@.take(i as int)).last() == chars@.subrange(
                start as int,
                i as int,
            ),
            forall|k: int|
                #![trigger r@[k]]
                0 <= k < r@.len() ==> r@[k].0 <= r@[k].1 <= chars@.len() && chars@.subrange(
                    r@[k].0 as int,
                    r@[k].1 as int,
                ) == timestamp_parts(chars@.take(i as int))[k],
        decreases chars@.len() - i,
    {
        let c = chars[i];
        let ghost next = chars@.take(i + 1);
        assert(next.drop_last() =~= chars@.take(i as int));
        if c == '-' || c == 'T' || c == ':' {
            r.push((start, i));
            start = i + 1;
            assert(chars@.subrange(start as int, i + 1) =~= Seq::<char>::empty());
        } else {
            assert(chars@.subrange(start as int, i + 1) =~= chars@.subrange(
                start as int,
                i as int,
            ).push(c));
        }
        i = i + 1;
    }
    assert(chars@.take(i as int) =~= chars@);
    r.push((start, i));
    r
}

fn part_number(chars: &Vec<char>, bounds: &Vec<(usize, usize)>, i: usize, default: i64) -> (r: i64)
    requires
        bounds@.len() == timestamp_parts(chars@).len(),
        forall|k: int|
            #![trigger bounds@[k]]
            0 <= k < bounds@.len() ==> bounds@[k].0 <= bounds@[k].1 <= chars@.len()
                && chars@.subrange(bounds@[k].0 as int, bounds@[k].1 as int) == timestamp_parts(
                chars@,
            )[k],
    ensures
        r == part_or(timestamp_parts(chars@), i as int, default as int),
{
    if i < bounds.len() {
        match text::parse_i64(chars, bounds[i].0, bounds[i].1) {
            Some(n) => n,
            None => default,
        }
    } else {
        default
    }
}

/// The microseconds since the epoch of `YYYY-MM-DD` or `YYYY-MM-DDTHH:MM:SS`,
/// approximate in the calendar; 0 without a full date.
pub fn parse_timestamp_micros(s: &str) -> (r: i64)
    ensures
        r == timestamp_micros(s@),
        i64::MIN <= timestamp_value(s@) <= i64::MAX ==> r == timestamp_value(s@),
{
    let chars = text::chars_of(s);
    let bounds = part_bounds(&chars);
    if bounds.len() < 3 {
        return 0;
    }
    let year: i128 = part_number(&chars, &bounds, 0, 2026) as i128;
    let month: i128 = part_number(&chars, &bounds, 1, 1) as i128;
    let day: i128 = part_number(&chars, &bounds, 2, 1) as i128;
    let hour: i128 = part_number(&chars, &bounds, 3, 0) as i128;
    let min: i128 = part_number(&chars, &bounds, 4, 0) as i128;
    let sec: i128 = part_number(&chars, &bounds, 5, 0) as i128;
    let since: i128 = year - 1969;
    let leaps: i128 = if since >= 0 {
        (since as u128 / 4) as i128
    } else {
        -(((-since) as u128 / 4) as i128)
    };
    let days: i128 = (year - 1970) * 365 + leaps + (month - 1) * 30 + day;
    let secs: i128 = days * 86400 + hour * 3600 + min * 60 + sec;
    let micros: i128 = secs * 1_000_000;
    assert(micros == timestamp_value(s@));
    #[verifier::truncate]
    (micros as i64)
}

// ---------------------------------------------------------------------------
// Literals to values
// ---------------------------------------------------------------------------
/// Every literal of the list is a floating-point number.
pub open spec fn all_floats(items: Seq<LiteralV>) -> bool {
    forall|i: int| 0 <= i < items.len() ==> #[trigger] items[i] is Float
}

/// The value of a literal. A long list of floating-point numbers packs into
/// an embedding; identities are stored as text.
pub open spec fn literal_value(l: LiteralV) -> ValueV
    decreases l,
{
    match l {
        LiteralV::Int(n) => ValueV::Int(n),
        LiteralV::Float(f) => ValueV::Float(f),
        LiteralV::Text(s) => ValueV::Text(s),
        LiteralV::Bool(b) => ValueV::Bool(b),
        LiteralV::Timestamp(s) => ValueV::Timestamp(timestamp_micros(s)),
        LiteralV::Lid(s) => ValueV::Text(s),
        LiteralV::Null => ValueV::Null,
        LiteralV::List(items) => if all_floats(items) && items.len() >= VECTOR_F32_MIN_DIMS {
            ValueV::Vector(Seq::new(items.len(), |i: int| float::narrowed(items[i]->Float_0)))
        } else {
            ValueV::List(literal_values(items))
        },
        LiteralV::Object(pairs) => ValueV::Object(literal_pairs(pairs)),
        LiteralV::Param(_) => ValueV::Null,
    }
}

/// The values of a list of literals.
pub open spec fn literal_values(items: Seq<LiteralV>) -> Seq<ValueV>
    decreases items,
{
    Seq::new(
        items.len(),
        |i: int|
            if 0 <= i < items.len() {
                literal_value(items[i])
            } else {
                ValueV::Null
            },
    )
}

/// The values of a list of named literals.
pub open spec fn literal_pairs(pairs: Seq<(Seq<char>, LiteralV)>) -> Seq<(Seq<char>, ValueV)>
    decreases pairs,
{
    Seq::new(
        pairs.len(),
        |i: int|
            if 0 <= i < pairs.len() {
                (pairs[i].0, literal_value(pairs[i].1))
            } else {
                (Seq::empty(), ValueV::Null)
            },
    )
}

/// The value of a list literal: an embedding when every element is a
/// floating-point number and there are at least [`VECTOR_F32_MIN_DIMS`].
fn list_literal_to_value(items: &Vec<Literal>) -> (r: Value)
    requires
        ast::all_bound(ast::literals_view(items@)),
    ensures
        r@ == literal_value(LiteralV::List(ast::literals_view(items@))),
    decreases items,
{
    let ghost lits = ast::literals_view(items@);
    let mut packed: Vec<u32> = Vec::new();
    let mut all_float = true;
    let mut i: usize = 0;
    while i < items.len() && all_float
        invariant
            i <= items@.len(),
            lits == ast::literals_view(items@),
            all_float ==> packed@.len() == i,
            all_float ==> forall|j: int| 0 <= j < i ==> #[trigger] lits[j] is Float,
            all_float ==> forall|j: int|
                0 <= j < i ==> #[trigger] packed@[j] == float::narrowed(lits[j]->Float_0),
            !all_float ==> !all_floats(lits),
        decreases items@.len() - i + (if all_float {
            1int
        } else {
            0int
        }),
    {
        match &items[i] {
            Literal::Float(f) => {
                assert(lits[i as int] == LiteralV::Float(*f));
                packed.push(float::narrow(*f));
                i = i + 1;
            },
            _ => {
                assert(!(lits[i as int] is Float));
                all_float = false;
            },
        }
    }
    if all_float && items.len() >= VECTOR_F32_MIN_DIMS {
        let ghost want = Seq::new(lits.len(), |k: int| float::narrowed(lits[k]->Float_0));
        assert(packed@ =~= want);
        return Value::Vector(packed);
    }
    let mut out: Vec<Value> = Vec::new();
    let mut k: usize = 0;
    while k < items.len()
        invariant
            k <= items@.len(),
            lits == ast::literals_view(items@),
            ast::all_bound(lits),
            out@.len() == k,
            forall|j: int| 0 <= j < k ==> (#[trigger] out@[j])@ == literal_value(lits[j]),
        decreases items@.len() - k,
    {
        assert(ast::bound(lits[k as int]));
        out.push(literal_to_value(&items[k]));
        k = k + 1;
    }
    let r = Value::List(out);
    assert(r@->List_0 =~= literal_values(lits));
    r
}

fn named_literals_to_value(pairs: &Vec<(String, Literal)>) -> (r: Value)
    requires
        ast::pairs_bound(ast::named_literals_view(pairs@)),
    ensures
        r@ == literal_value(LiteralV::Object(ast::named_literals_view(pairs@))),
    decreases pairs,
{
    let ghost lits = ast::named_literals_view(pairs@);
    let mut out: Vec<(String, Value)> = Vec::new();
    let mut k: usize = 0;
    while k < pairs.len()
        invariant
            k <= pairs@.len(),
            lits == ast::named_literals_view(pairs@),
            ast::pairs_bound(lits),
            out@.len() == k,
            forall|j: int|
                0 <= j < k ==> (#[trigger] out@[j]).0@ == lits[j].0 && out@[j].1@
                    == literal_value(lits[j].1),
        decreases pairs@.len() - k,
    {
        assert(ast::bound(lits[k as int].1));
        out.push((pairs[k].0.clone(), literal_to_value(&pairs[k].1)));
        k = k + 1;
    }
    let r = Value::Object(out);
    assert(r@->Object_0 =~= literal_pairs(lits));
    r
}

/// The value of a literal whose parameters are bound.
pub fn literal_to_value(lit: &Literal) -> (r: Value)
    requires
        ast::bound(lit@),
    ensures
        r@ == literal_value(lit@),
    decreases lit,
{
    match lit {
        Literal::Int(v) => Value::Int(*v),
        Literal::Float(v) => Value::Float(*v),
        Literal::Text(v) => Value::Text(v.clone()),
        Literal::Bool(v) => Value::Bool(*v),
        Literal::Timestamp(s) => Value::Timestamp(parse_timestamp_micros(s.as_str())),
        Literal::Lid(s) => Value::Text(s.clone()),
        Literal::Null => Value::Null,
        Literal::List(items) => list_literal_to_value(items),
        Literal::Object(pairs) => named_literals_to_value(pairs),
        Literal::Param(_) => Value::Null,
    }
}

// ---------------------------------------------------------------------------
// Predicates
// ---------------------------------------------------------------------------
/// The evaluated form of a comparison.
pub open spec fn core_op(op: ast::FilterOp) -> FilterOp {
    match op {
        ast::FilterOp::Eq => FilterOp::Eq,
        ast::FilterOp::Neq => FilterOp::Neq,
        ast::FilterOp::Gt => FilterOp::Gt,
        ast::FilterOp::Gte => FilterOp::Gte,
        ast::FilterOp::Lt => FilterOp::Lt,
        ast::FilterOp::Lte => FilterOp::Lte,
        ast::FilterOp::IsNull => FilterOp::IsNull,
        ast::FilterOp::IsNotNull => FilterOp::IsNotNull,
        ast::FilterOp::Contains => FilterOp::Contains,
        ast::FilterOp::In => FilterOp::In,
    }
}

/// The evaluated form of a comparison.
pub fn convert_filter_op(op: &ast::FilterOp) -> (r: FilterOp)
    ensures
        r == core_op(*op),
{
    match op {
        ast::FilterOp::Eq => FilterOp::Eq,
        ast::FilterOp::Neq => FilterOp::Neq,
        ast::FilterOp::Gt => FilterOp::Gt,
        ast::FilterOp::Gte => FilterOp::Gte,
        ast::FilterOp::Lt => FilterOp::Lt,
        ast::FilterOp::Lte => FilterOp::Lte,
        ast::FilterOp::IsNull => FilterOp::IsNull,
        ast::FilterOp::IsNotNull => FilterOp::IsNotNull,
        ast::FilterOp::Contains => FilterOp::Contains,
        ast::FilterOp::In => FilterOp::In,
    }
}

/// The evaluated form of a filter.
pub open spec fn core_predicate(f: FilterV) -> (Seq<char>, FilterOp, ValueV) {
    (f.field, core_op(f.op), literal_value(f.value))
}

/// The evaluated form of a list of filters.
pub open spec fn core_predicates(fs: Seq<FilterV>) -> Seq<(Seq<char>, FilterOp, ValueV)> {
    Seq::new(fs.len(), |i: int| core_predicate(fs[i]))
}

/// Every literal of the filters is bound.
pub open spec fn filters_bound(fs: Seq<FilterV>) -> bool {
    forall|i: int| 0 <= i < fs.len() ==> ast::bound((#[trigger] fs[i]).value)
}

/// The evaluated form of a list of filters.
pub fn convert_filters(filters: &[Filter]) -> (r: Vec<(String, FilterOp, Value)>)
    requires
        filters_bound(ast::filters_view(filters@)),
    ensures
        record::predicates_view(r@) == core_predicates(ast::filters_view(filters@)),
{
    let ghost fs = ast::filters_view(filters@);
    let mut r: Vec<(String, FilterOp, Value)> = Vec::new();
    let mut i: usize = 0;
    while i < filters.len()
        invariant
            i <= filters@.len(),
            fs == ast::filters_view(filters@),
            filters_bound(fs),
            r@.len() == i,
            forall|j: int|
                0 <= j < i ==> record::predicate_view(#[trigger] r@[j]) == core_predicate(fs[j]),
        decreases filters@.len() - i,
    {
        let f = &filters[i];
        assert(fs[i as int] == f@);
        r.push((f.field.clone(), convert_filter_op(&f.op), literal_to_value(&f.value)));
        i = i + 1;
    }
    assert(record::predicates_view(r@) =~= core_predicates(fs));
    r
}

/// The conditions of `e` in order when it is a conjunction, else `None`.
pub fn as_flat_and(e: &FilterExpr) -> (r: Option<Vec<Filter>>)
    ensures
        match r {
            Some(fs) => ast::is_flat(e@) && ast::filters_view(fs@) == ast::conditions(e@),
            None => !ast::is_flat(e@),
        },
    decreases e,
{
    match e {
        FilterExpr::Condition(f) => {
            let mut out: Vec<Filter> = Vec::new();
            out.push(f.clone_filter());
            assert(ast::filters_view(out@) =~= ast::conditions(e@));
            Some(out)
        },
        FilterExpr::And(v) => flat_members(v),
        _ => None,
    }
}

fn flat_members(v: &Vec<FilterExpr>) -> (r: Option<Vec<Filter>>)
    ensures
        match r {
            Some(fs) => ast::all_flat(ast::exprs_view(v@)) && ast::filters_view(fs@)
                == ast::conditions_of(ast::exprs_view(v@), v@.len()),
            None => !ast::all_flat(ast::exprs_view(v@)),
        },
    decreases v,
{
    let ghost es = ast::exprs_view(v@);
    let mut out: Vec<Filter> = Vec::new();
    let mut i: usize = 0;
    assert(ast::filters_view(out@) =~= Seq::<FilterV>::empty());
    while i < v.len()
        invariant
            i <= v@.len(),
            es == ast::exprs_view(v@),
            forall|j: int| 0 <= j < i ==> ast::is_flat(#[trigger] es[j]),
            ast::filters_view(out@) == ast::conditions_of(es, i as nat),
        decreases v@.len() - i,
    {
        match as_flat_and(&v[i]) {
            Some(more) => {
                let ghost before = out@;
                let mut more = more;
                let ghost added = more@;
                out.append(&mut more);
                assert(ast::filters_view(before + added) =~= ast::filters_view(before)
                    + ast::filters_view(added));
                assert(es[i as int] == v@[i as int]@);
                assert(ast::conditions_of(es, (i + 1) as nat) == ast::conditions_of(es, i as nat)
                    + ast::conditions(es[i as int]));
            },
            None => {
                assert(!ast::is_flat(es[i as int]));
                return None;
            },
        }
        i = i + 1;
    }
    Some(out)
}

/// The conjunction of a list of filters.
pub fn from_filters(filters: &Vec<Filter>) -> (r: FilterExpr)
    ensures
        r@ == FilterExprV::And(
            Seq::new(
                filters@.len(),
                |i: int| FilterExprV::Condition(ast::filters_view(filters@)[i]),
            ),
        ),
{
    let mut out: Vec<FilterExpr> = Vec::new();
    let mut i: usize = 0;
    while i < filters.len()
        invariant
            i <= filters@.len(),
            out@.len() == i,
            forall|j: int|
                0 <= j < i ==> ast::expr_view(#[trigger] out@[j]) == FilterExprV::Condition(
                    filters@[j]@,
                ),
        decreases filters@.len() - i,
    {
        out.push(FilterExpr::Condition(filters[i].clone_filter()));
        i = i + 1;
    }
    assert(ast::exprs_view(out@) =~= Seq::new(
        filters@.len(),
        |i: int| FilterExprV::Condition(ast::filters_view(filters@)[i]),
    ));
    FilterExpr::And(out)
}

/// The view of an optional expression.
pub open spec fn opt_expr_view(e: Option<FilterExpr>) -> Option<FilterExprV> {
    match e {
        Some(x) => Some(x@),
        None => None,
    }
}

/// The flat conditions of an optional predicate: none without a predicate,
/// and none for a predicate that is no conjunction.
pub open spec fn flat_conditions(e: Option<FilterExprV>) -> Seq<FilterV> {
    match e {
        Some(x) => if ast::is_flat(x) {
            ast::conditions(x)
        } else {
            Seq::empty()
        },
        None => Seq::empty(),
    }
}

/// The flat conditions of an optional predicate.
pub fn filter_expr_to_flat(expr: &Option<FilterExpr>) -> (r: Vec<Filter>)
    ensures
        ast::filters_view(r@) == flat_conditions(opt_expr_view(*expr)),
{
    match expr {
        None => {
            let r: Vec<Filter> = Vec::new();
            assert(ast::filters_view(r@) =~= Seq::<FilterV>::empty());
            r
        },
        Some(e) => match as_flat_and(e) {
            Some(fs) => fs,
            None => {
                let r: Vec<Filter> = Vec::new();
                assert(ast::filters_view(r@) =~= Seq::<FilterV>::empty());
                r
            },
        },
    }
}

proof fn lemma_conditions_bound(e: FilterExprV)
    requires
        ast::expr_bound(e),
        ast::is_flat(e),
    ensures
        filters_bound(ast::conditions(e)),
    decreases e, 1nat, 0nat,
{
    match e {
        FilterExprV::And(v) => {
            lemma_members_bound(v, v.len());
        },
        _ => {},
    }
}

proof fn lemma_members_bound(v: Seq<FilterExprV>, n: nat)
    requires
        n <= v.len(),
        ast::exprs_bound(v),
        ast::all_flat(v),
    ensures
        filters_bound(ast::conditions_of(v, n)),
    decreases v, 0nat, n,
{
    if n > 0 {
        lemma_members_bound(v, (n - 1) as nat);
        lemma_conditions_bound(v[n - 1]);
    }
}

/// The evaluated form of the flat conditions of an optional predicate.
pub fn convert_filter_expr(expr: &Option<FilterExpr>) -> (r: Vec<(String, FilterOp, Value)>)
    requires
        match opt_expr_view(*expr) {
            Some(e) => ast::expr_bound(e),
            None => true,
        },
    ensures
        record::predicates_view(r@) == core_predicates(flat_conditions(opt_expr_view(*expr))),
{
    let flat = filter_expr_to_flat(expr);
    proof {
        match opt_expr_view(*expr) {
            Some(e) => {
                if ast::is_flat(e) {
                    lemma_conditions_bound(e);
                }
            },
            None => {},
        }
    }
    convert_filters(flat.as_slice())
}

// ---------------------------------------------------------------------------
// The evaluated tree
// ---------------------------------------------------------------------------
/// A predicate in the form that is evaluated.
#[derive(Debug)]
pub enum CoreFilterExpr {
    Leaf((String, FilterOp, Value)),
    And(Vec<CoreFilterExpr>),
    Or(Vec<CoreFilterExpr>),
    Not(Box<CoreFilterExpr>),
}

/// What a [`CoreFilterExpr`] stands for.
pub enum CoreExprV {
    Leaf((Seq<char>, FilterOp, ValueV)),
    And(Seq<CoreExprV>),
    Or(Seq<CoreExprV>),
    Not(Box<CoreExprV>),
}

/// The views of a list of trees.
pub open spec fn cores_view(s: Seq<CoreFilterExpr>) -> Seq<CoreExprV>
    decreases s,
{
    Seq::new(
        s.len(),
        |i: int|
            if 0 <= i < s.len() {
                core_view(s[i])
            } else {
                CoreExprV::And(Seq::empty())
            },
    )
}

pub open spec fn core_view(e: CoreFilterExpr) -> CoreExprV
    decreases e,
{
    match e {
        CoreFilterExpr::Leaf(p) => CoreExprV::Leaf(record::predicate_view(p)),
        CoreFilterExpr::And(v) => CoreExprV::And(cores_view(v@)),
        CoreFilterExpr::Or(v) => CoreExprV::Or(cores_view(v@)),
        CoreFilterExpr::Not(inner) => CoreExprV::Not(Box::new(core_view(*inner))),
    }
}

impl View for CoreFilterExpr {
    type V = CoreExprV;

    open spec fn view(&self) -> CoreExprV {
        core_view(*self)
    }
}

/// The tree with the same shape whose leaves are evaluated forms.
pub open spec fn core_tree(e: FilterExprV) -> CoreExprV
    decreases e,
{
    match e {
        FilterExprV::Condition(f) => CoreExprV::Leaf(core_predicate(f)),
        FilterExprV::And(v) => CoreExprV::And(core_trees(v)),
        FilterExprV::Or(v) => CoreExprV::Or(core_trees(v)),
        FilterExprV::Not(inner) => CoreExprV::Not(Box::new(core_tree(*inner))),
    }
}

/// The evaluated forms of a list of expressions.
pub open spec fn core_trees(v: Seq<FilterExprV>) -> Seq<CoreExprV>
    decreases v,
{
    Seq::new(
        v.len(),
        |i: int|
            if 0 <= i < v.len() {
                core_tree(v[i])
            } else {
                CoreExprV::And(Seq::empty())
            },
    )
}

fn to_core_members(v: &Vec<FilterExpr>) -> (r: Vec<CoreFilterExpr>)
    requires
        ast::exprs_bound(ast::exprs_view(v@)),
    ensures
        cores_view(r@) == core_trees(ast::exprs_view(v@)),
    decreases v,
{
    let mut r: Vec<CoreFilterExpr> = Vec::new();
    let mut i: usize = 0;
    while i < v.len()
        invariant
            i <= v@.len(),
            r@.len() == i,
            ast::exprs_bound(ast::exprs_view(v@)),
            forall|j: int|
                0 <= j < i ==> core_view(#[trigger] r@[j]) == core_tree(ast::exprs_view(v@)[j]),
        decreases v@.len() - i,
    {
        assert(ast::exprs_view(v@)[i as int] == v@[i as int]@);
        r.push(to_core_expr(&v[i]));
        i = i + 1;
    }
    assert(cores_view(r@) =~= core_trees(ast::exprs_view(v@)));
    r
}

/// The evaluated form of a predicate.
pub fn to_core_expr(expr: &FilterExpr) -> (r: CoreFilterExpr)
    requires
        ast::expr_bound(expr@),
    ensures
        r@ == core_tree(expr@),
    decreases expr,
{
    match expr {
        FilterExpr::Condition(f) => CoreFilterExpr::Leaf(
            (f.field.clone(), convert_filter_op(&f.op), literal_to_value(&f.value)),
        ),
        FilterExpr::And(v) => CoreFilterExpr::And(to_core_members(v)),
        FilterExpr::Or(v) => CoreFilterExpr::Or(to_core_members(v)),
        FilterExpr::Not(inner) => CoreFilterExpr::Not(Box::new(to_core_expr(inner))),
    }
}

/// The conjunction of a list of predicates.
pub fn and_of(leaves: Vec<(String, FilterOp, Value)>) -> (r: CoreFilterExpr)
    ensures
        r@ == and_tree(record::predicates_view(leaves@)),
{
    let ghost all = leaves@;
    let mut leaves = leaves;
    let mut out: Vec<CoreFilterExpr> = Vec::new();
    while leaves.len() > 0
        invariant
            leaves@.len() + out@.len() == all.len(),
            forall|i: int| 0 <= i < leaves@.len() ==> leaves@[i] == all[out@.len() + i],
            forall|i: int|
                0 <= i < out@.len() ==> core_view(#[trigger] out@[i]) == CoreExprV::Leaf(
                    record::predicate_view(all[i]),
                ),
        decreases leaves@.len(),
    {
        let p = leaves.remove(0);
        out.push(CoreFilterExpr::Leaf(p));
    }
    let ghost p = record::predicates_view(all);
    assert(cores_view(out@) =~= Seq::new(p.len(), |i: int| CoreExprV::Leaf(p[i])));
    CoreFilterExpr::And(out)
}

/// The conjunction of a list of predicates.
pub open spec fn and_tree(leaves: Seq<(Seq<char>, FilterOp, ValueV)>) -> CoreExprV {
    CoreExprV::And(Seq::new(leaves.len(), |i: int| CoreExprV::Leaf(leaves[i])))
}

/// Whether a record that satisfies exactly the predicates in `truth` satisfies
/// the tree.
pub open spec fn holds(
    e: CoreExprV,
    truth: spec_fn((Seq<char>, FilterOp, ValueV)) -> bool,
) -> bool
    decreases e,
{
    match e {
        CoreExprV::Leaf(p) => truth(p),
        CoreExprV::And(v) => all_hold(v, truth),
        CoreExprV::Or(v) => any_holds(v, truth),
        CoreExprV::Not(inner) => !holds(*inner, truth),
    }
}

/// Every tree of the list is satisfied.
pub open spec fn all_hold(
    v: Seq<CoreExprV>,
    truth: spec_fn((Seq<char>, FilterOp, ValueV)) -> bool,
) -> bool
    decreases v,
{
    forall|i: int| 0 <= i < v.len() ==> holds(#[trigger] v[i], truth)
}

/// Some tree of the list is satisfied.
pub open spec fn any_holds(
    v: Seq<CoreExprV>,
    truth: spec_fn((Seq<char>, FilterOp, ValueV)) -> bool,
) -> bool
    decreases v,
{
    exists|i: int| 0 <= i < v.len() && holds(#[trigger] v[i], truth)
}

/// `leaf` decides single predicates: it accepts every predicate and its
/// verdict is a function of what the predicate says.
pub open spec fn decides<L: Fn(&(String, FilterOp, Value)) -> bool>(leaf: L) -> bool {
    &&& forall|p: &(String, FilterOp, Value)| #[trigger] leaf.requires((p,))
    &&& forall|p: &(String, FilterOp, Value), q: &(String, FilterOp, Value), a: bool, b: bool|
        #![trigger leaf.ensures((p,), a), leaf.ensures((q,), b)]
        leaf.ensures((p,), a) && leaf.ensures((q,), b) && record::predicate_view(*p)
            == record::predicate_view(*q) ==> a == b
}

/// The predicates that `leaf` accepts.
pub open spec fn verdicts<L: Fn(&(String, FilterOp, Value)) -> bool>(leaf: L) -> spec_fn(
    (Seq<char>, FilterOp, ValueV),
) -> bool {
    |p: (Seq<char>, FilterOp, ValueV)|
        exists|q: &(String, FilterOp, Value)|
            record::predicate_view(*q) == p && #[trigger] leaf.ensures((q,), true)
}

/// `leaf` says of every predicate whether it is true.
pub open spec fn decided_by<L: Fn(&(String, FilterOp, Value)) -> bool>(
    leaf: L,
    truth: spec_fn((Seq<char>, FilterOp, ValueV)) -> bool,
) -> bool {
    &&& forall|p: &(String, FilterOp, Value)| #[trigger] leaf.requires((p,))
    &&& forall|p: &(String, FilterOp, Value), b: bool| #[trigger]
        leaf.ensures((p,), b) ==> b == truth(record::predicate_view(*p))
}

fn all_match<L: Fn(&(String, FilterOp, Value)) -> bool>(
    v: &Vec<CoreFilterExpr>,
    leaf: &L,
    Ghost(truth): Ghost<spec_fn((Seq<char>, FilterOp, ValueV)) -> bool>,
) -> (r: bool)
    requires
        decided_by(*leaf, truth),
    ensures
        r == all_hold(cores_view(v@), truth),
    decreases v,
{
    let ghost es = cores_view(v@);
    let mut i: usize = 0;
    while i < v.len()
        invariant
            i <= v@.len(),
            es == cores_view(v@),
            decided_by(*leaf, truth),
            forall|j: int| 0 <= j < i ==> holds(#[trigger] es[j], truth),
        decreases v@.len() - i,
    {
        assert(es[i as int] == v@[i as int]@);
        if !evaluate(&v[i], leaf, Ghost(truth)) {
            assert(!holds(es[i as int], truth));
            return false;
        }
        i = i + 1;
    }
    true
}

fn any_match<L: Fn(&(String, FilterOp, Value)) -> bool>(
    v: &Vec<CoreFilterExpr>,
    leaf: &L,
    Ghost(truth): Ghost<spec_fn((Seq<char>, FilterOp, ValueV)) -> bool>,
) -> (r: bool)
    requires
        decided_by(*leaf, truth),
    ensures
        r == any_holds(cores_view(v@), truth),
    decreases v,
{
    let ghost es = cores_view(v@);
    let mut i: usize = 0;
    while i < v.len()
        invariant
            i <= v@.len(),
            es == cores_view(v@),
            decided_by(*leaf, truth),
            forall|j: int| 0 <= j < i ==> !holds(#[trigger] es[j], truth),
        decreases v@.len() - i,
    {
        assert(es[i as int] == v@[i as int]@);
        if evaluate(&v[i], leaf, Ghost(truth)) {
            assert(holds(es[i as int], truth));
            return true;
        }
        i = i + 1;
    }
    false
}

/// Whether the tree is satisfied, where `leaf` says which single predicates are
/// true.
pub(crate) fn evaluate<L: Fn(&(String, FilterOp, Value)) -> bool>(
    expr: &CoreFilterExpr,
    leaf: &L,
    Ghost(truth): Ghost<spec_fn((Seq<char>, FilterOp, ValueV)) -> bool>,
) -> (r: bool)
    requires
        decided_by(*leaf, truth),
    ensures
        r == holds(expr@, truth),
    decreases expr,
{
    match expr {
        CoreFilterExpr::Leaf(t) => leaf(t),
        CoreFilterExpr::And(v) => all_match(v, leaf, Ghost(truth)),
        CoreFilterExpr::Or(v) => any_match(v, leaf, Ghost(truth)),
        CoreFilterExpr::Not(e) => !evaluate(e, leaf, Ghost(truth)),
    }
}

/// Whether a record satisfies the tree, where `leaf` says which single
/// predicates it satisfies.
pub fn matches_core_expr<L: Fn(&(String, FilterOp, Value)) -> bool>(
    expr: &CoreFilterExpr,
    leaf: &L,
) -> (r: bool)
    requires
        decides(*leaf),
    ensures
        r == holds(expr@, verdicts(*leaf)),
{
    proof {
        assert forall|p: &(String, FilterOp, Value), b: bool| #[trigger]
            leaf.ensures((p,), b) implies b == verdicts(*leaf)(record::predicate_view(*p)) by {}
    }
    evaluate(expr, leaf, Ghost(verdicts(*leaf)))
}

/// Whether a record satisfies a statement's predicate.
pub fn matches_filter_expr<L: Fn(&(String, FilterOp, Value)) -> bool>(
    expr: &FilterExpr,
    leaf: &L,
) -> (r: bool)
    requires
        ast::expr_bound(expr@),
        decides(*leaf),
    ensures
        r == holds(core_tree(expr@), verdicts(*leaf)),
{
    matches_core_expr(&to_core_expr(expr), leaf)
}

/// Whether a record satisfies an optional predicate; without one it does.
pub fn record_matches_opt_expr<L: Fn(&(String, FilterOp, Value)) -> bool>(
    expr: &Option<FilterExpr>,
    leaf: &L,
) -> (r: bool)
    requires
        match opt_expr_view(*expr) {
            Some(e) => ast::expr_bound(e),
            None => true,
        },
        decides(*leaf),
    ensures
        r == match opt_expr_view(*expr) {
            Some(e) => holds(core_tree(e), verdicts(*leaf)),
            None => true,
        },
{
    match expr {
        None => true,
        Some(e) => matches_filter_expr(e, leaf),
    }
}

/// A conjunction of predicates holds exactly when every one of them does; the
/// empty conjunction holds.
pub proof fn law_and_tree_is_all(
    leaves: Seq<(Seq<char>, FilterOp, ValueV)>,
    truth: spec_fn((Seq<char>, FilterOp, ValueV)) -> bool,
)
    ensures
        holds(and_tree(leaves), truth) <==> forall|i: int|
            0 <= i < leaves.len() ==> truth(#[trigger] leaves[i]),
{
    let v = Seq::new(leaves.len(), |i: int| CoreExprV::Leaf(leaves[i]));
    assert forall|i: int| 0 <= i < v.len() implies holds(#[trigger] v[i], truth) == truth(
        leaves[i],
    ) by {}
    if all_hold(v, truth) {
        assert forall|i: int| 0 <= i < leaves.len() implies truth(#[trigger] leaves[i]) by {
            assert(holds(v[i], truth));
        }
    }
}

/// A flat predicate holds exactly when every one of its conditions does.
pub proof fn law_flat_is_all(
    e: FilterExprV,
    truth: spec_fn((Seq<char>, FilterOp, ValueV)) -> bool,
)
    requires
        ast::is_flat(e),
    ensures
        holds(core_tree(e), truth) <==> forall|i: int|
            0 <= i < ast::conditions(e).len() ==> truth(
                core_predicate(#[trigger] ast::conditions(e)[i]),
            ),
    decreases e, 1nat, 0nat,
{
    match e {
        FilterExprV::Condition(f) => {
            let p = core_predicate(f);
            assert(core_tree(e) == CoreExprV::Leaf(p));
            assert(holds(CoreExprV::Leaf(p), truth) == truth(p));
            assert(ast::conditions(e)[0] == f);
        },
        FilterExprV::And(v) => {
            lemma_flat_members(v, v.len(), truth);
            let w = core_trees(v);
            assert(core_tree(e) == CoreExprV::And(w));
            assert(holds(CoreExprV::And(w), truth) == all_hold(w, truth));
            assert(ast::conditions(e) == ast::conditions_of(v, v.len()));
            assert forall|i: int| 0 <= i < v.len() implies #[trigger] w[i] == core_tree(v[i]) by {}
            if all_hold(w, truth) {
                assert forall|i: int| 0 <= i < v.len() implies holds(
                    core_tree(#[trigger] v[i]),
                    truth,
                ) by {
                    assert(holds(w[i], truth));
                }
            }
            if forall|i: int| 0 <= i < v.len() ==> holds(core_tree(#[trigger] v[i]), truth) {
                assert forall|i: int| 0 <= i < w.len() implies holds(#[trigger] w[i], truth) by {
                    assert(holds(core_tree(v[i]), truth));
                }
            }
        },
        _ => {},
    }
}

proof fn lemma_flat_members(
    v: Seq<FilterExprV>,
    n: nat,
    truth: spec_fn((Seq<char>, FilterOp, ValueV)) -> bool,
)
    requires
        n <= v.len(),
        ast::all_flat(v),
    ensures
        (forall|i: int| 0 <= i < n ==> holds(core_tree(#[trigger] v[i]), truth)) <==> forall|i: int|
            0 <= i < ast::conditions_of(v, n).len() ==> truth(
                core_predicate(#[trigger] ast::conditions_of(v, n)[i]),
            ),
    decreases v, 0nat, n,
{
    if n > 0 {
        let m = (n - 1) as nat;
        lemma_flat_members(v, m, truth);
        law_flat_is_all(v[n - 1], truth);
        let a = ast::conditions_of(v, m);
        let b = ast::conditions(v[n - 1]);
        let all = ast::conditions_of(v, n);
        assert(all == a + b);
        if forall|i: int| 0 <= i < all.len() ==> truth(core_predicate(#[trigger] all[i])) {
            assert forall|i: int| 0 <= i < a.len() implies truth(
                core_predicate(#[trigger] a[i]),
            ) by {
                assert(all[i] == a[i]);
            }
            assert forall|i: int| 0 <= i < b.len() implies truth(
                core_predicate(#[trigger] b[i]),
            ) by {
                assert(all[a.len() + i] == b[i]);
            }
        }
        if forall|i: int| 0 <= i < n ==> holds(core_tree(#[trigger] v[i]), truth) {
            assert forall|i: int| 0 <= i < all.len() implies truth(
                core_predicate(#[trigger] all[i]),
            ) by {
                assert(holds(core_tree(v[n - 1]), truth));
                if i < a.len() {
                    assert(all[i] == a[i]);
                } else {
                    assert(all[i] == b[i - a.len()]);
                }
            }
        }
    }
}

// ---------------------------------------------------------------------------
// What a timestamp says
// ---------------------------------------------------------------------------
/// The text holds no character that separates the parts of a timestamp.
pub open spec fn is_one_part(s: Seq<char>) -> bool {
    forall|i: int| 0 <= i < s.len() ==> !is_separator(#[trigger] s[i])
}

proof fn lemma_one_part(s: Seq<char>)
    requires
        is_one_part(s),
    ensures
        timestamp_parts(s) == seq![s],
    decreases s.len(),
{
    if s.len() > 0 {
        let d = s.drop_last();
        assert forall|i: int| 0 <= i < d.len() implies !is_separator(#[trigger] d[i]) by {
            assert(d[i] == s[i]);
        }
        lemma_one_part(d);
        assert(s[s.len() - 1] == s.last());
        assert(d.push(s.last()) =~= s);
        assert(timestamp_parts(s) =~= seq![s]);
    } else {
        assert(s =~= Seq::<char>::empty());
    }
}

proof fn lemma_next_part(a: Seq<char>, c: char, b: Seq<char>)
    requires
        is_separator(c),
        is_one_part(b),
    ensures
        timestamp_parts(a.push(c) + b) == timestamp_parts(a).push(b),
    decreases b.len(),
{
    let s = a.push(c) + b;
    if b.len() == 0 {
        assert(s.drop_last() =~= a);
        assert(s.last() == c);
        assert(b =~= Seq::<char>::empty());
    } else {
        let d = b.drop_last();
        assert forall|i: int| 0 <= i < d.len() implies !is_separator(#[trigger] d[i]) by {
            assert(d[i] == b[i]);
        }
        lemma_next_part(a, c, d);
        assert(b[b.len() - 1] == b.last());
        assert(s.drop_last() =~= a.push(c) + d);
        let before = timestamp_parts(a.push(c) + d);
        assert(before.drop_last() =~= timestamp_parts(a));
        assert(d.push(b.last()) =~= b);
        assert(timestamp_parts(s) =~= timestamp_parts(a).push(b));
    }
}

/// A date written with its year, month and day.
pub open spec fn date_text(year: int, month: int, day: int) -> Seq<char> {
    (text::decimal(year).push('-') + text::decimal(month)).push('-') + text::decimal(day)
}

/// A date and a time of day.
pub open spec fn moment_text(date: Seq<char>, hour: int, minute: int, second: int) -> Seq<char> {
    ((date.push('T') + text::decimal(hour)).push(':') + text::decimal(minute)).push(':')
        + text::decimal(second)
}

proof fn lemma_part_reads(n: int)
    requires
        0 <= n <= i64::MAX,
    ensures
        is_one_part(text::decimal(n)),
        text::parsed_i64(text::decimal(n)) == Some(n as i64),
{
    text::law_decimal_is_read(n);
    text::lemma_decimal_digits(n);
}

proof fn lemma_date_parts(year: int, month: int, day: int)
    requires
        0 <= year <= i64::MAX,
        0 <= month <= i64::MAX,
        0 <= day <= i64::MAX,
    ensures
        timestamp_parts(date_text(year, month, day)) == seq![
            text::decimal(year),
            text::decimal(month),
            text::decimal(day),
        ],
{
    lemma_part_reads(year);
    lemma_part_reads(month);
    lemma_part_reads(day);
    let y = text::decimal(year);
    lemma_one_part(y);
    lemma_next_part(y, '-', text::decimal(month));
    lemma_next_part(y.push('-') + text::decimal(month), '-', text::decimal(day));
    assert(timestamp_parts(date_text(year, month, day)) =~= seq![
        text::decimal(year),
        text::decimal(month),
        text::decimal(day),
    ]);
}

proof fn lemma_date_value(year: int, month: int, day: int)
    requires
        0 <= year <= i64::MAX,
        0 <= month <= i64::MAX,
        0 <= day <= i64::MAX,
    ensures
        timestamp_value(date_text(year, month, day)) == ((year - 1970) * 365 + div_toward_zero(
            year - 1969,
            4,
        ) + (month - 1) * 30 + day) * 86_400_000_000,
{
    lemma_date_parts(year, month, day);
    lemma_part_reads(year);
    lemma_part_reads(month);
    lemma_part_reads(day);
}

/// A later day or month is later by so many days, a month having thirty.
pub proof fn law_dates_count_days(year: int, month: int, day: int, days: int, months: int)
    requires
        1969 <= year <= i64::MAX,
        0 <= month <= i64::MAX,
        0 <= day <= i64::MAX,
        0 <= month + months <= i64::MAX,
        0 <= day + days <= i64::MAX,
    ensures
        timestamp_value(date_text(year, month + months, day + days)) == timestamp_value(
            date_text(year, month, day),
        ) + (months * 30 + days) * 86_400_000_000,
{
    lemma_date_value(year, month, day);
    lemma_date_value(year, month + months, day + days);
    let base = (year - 1970) * 365 + div_toward_zero(year - 1969, 4);
    lemma_later_days(base, month, day, days, months);
}

proof fn lemma_later_days(base: int, month: int, day: int, days: int, months: int)
    ensures
        (base + (month + months - 1) * 30 + (day + days)) * 86_400_000_000 == (base + (month - 1)
            * 30 + day) * 86_400_000_000 + (months * 30 + days) * 86_400_000_000,
{
}

/// The same day of the next year is 365 days later, or one more where the year is
/// divisible by four. The first day of 1970 is one day after the epoch.
pub proof fn law_years_count_days(year: int, month: int, day: int)
    requires
        1969 <= year < i64::MAX,
        0 <= month <= i64::MAX,
        0 <= day <= i64::MAX,
    ensures
        timestamp_value(date_text(year + 1, month, day)) == timestamp_value(
            date_text(year, month, day),
        ) + if year % 4 == 0 {
            366 * 86_400_000_000
        } else {
            365 * 86_400_000_000
        },
        timestamp_value(date_text(1970, 1, 1)) == 86_400_000_000,
{
    lemma_date_value(year, month, day);
    lemma_date_value(year + 1, month, day);
    lemma_date_value(1970, 1, 1);
    lemma_next_year(year, month, day);
}

/// Before the epoch's own leap days the same day of the year before is 365 days earlier, or
/// one more every fourth year.
pub proof fn law_earlier_years_count_days(year: int, month: int, day: int)
    requires
        1 <= year <= 1969,
        0 <= month <= i64::MAX,
        0 <= day <= i64::MAX,
    ensures
        timestamp_value(date_text(year - 1, month, day)) == timestamp_value(
            date_text(year, month, day),
        ) - if year % 4 == 2 {
            366 * 86_400_000_000
        } else {
            365 * 86_400_000_000
        },
{
    lemma_date_value(year, month, day);
    lemma_date_value(year - 1, month, day);
    lemma_year_before(year, month, day);
}

proof fn lemma_year_before(year: int, month: int, day: int)
    requires
        1 <= year <= 1969,
    ensures
        ((year - 1 - 1970) * 365 + div_toward_zero(year - 1 - 1969, 4) + (month - 1) * 30 + day)
            * 86_400_000_000 == ((year - 1970) * 365 + div_toward_zero(year - 1969, 4) + (month - 1)
            * 30 + day) * 86_400_000_000 - if year % 4 == 2 {
            366 * 86_400_000_000
        } else {
            365 * 86_400_000_000
        },
{
}

proof fn lemma_next_year(year: int, month: int, day: int)
    requires
        1969 <= year,
    ensures
        ((year + 1 - 1970) * 365 + (year + 1 - 1969) / 4 + (month - 1) * 30 + day) * 86_400_000_000
            == ((year - 1970) * 365 + (year - 1969) / 4 + (month - 1) * 30 + day) * 86_400_000_000
            + if year % 4 == 0 {
            366 * 86_400_000_000
        } else {
            365 * 86_400_000_000
        },
{
}

/// A time of day is later than its date by its hours, minutes and seconds.
pub proof fn law_times_count_seconds(
    year: int,
    month: int,
    day: int,
    hour: int,
    minute: int,
    second: int,
)
    requires
        0 <= year <= i64::MAX,
        0 <= month <= i64::MAX,
        0 <= day <= i64::MAX,
        0 <= hour <= i64::MAX,
        0 <= minute <= i64::MAX,
        0 <= second <= i64::MAX,
    ensures
        timestamp_value(moment_text(date_text(year, month, day), hour, minute, second))
            == timestamp_value(date_text(year, month, day)) + hour * 3_600_000_000 + minute
            * 60_000_000 + second * 1_000_000,
{
    lemma_date_parts(year, month, day);
    lemma_part_reads(year);
    lemma_part_reads(month);
    lemma_part_reads(day);
    lemma_part_reads(hour);
    lemma_part_reads(minute);
    lemma_part_reads(second);
    let date = date_text(year, month, day);
    let h = date.push('T') + text::decimal(hour);
    let m = h.push(':') + text::decimal(minute);
    lemma_next_part(date, 'T', text::decimal(hour));
    lemma_next_part(h, ':', text::decimal(minute));
    lemma_next_part(m, ':', text::decimal(second));
    assert(timestamp_parts(moment_text(date, hour, minute, second)) =~= seq![
        text::decimal(year),
        text::decimal(month),
        text::decimal(day),
        text::decimal(hour),
        text::decimal(minute),
        text::decimal(second),
    ]);
}

/// A timestamp literal stands for its microseconds where they fit.
pub proof fn law_timestamp_is_stored_as_its_time(s: Seq<char>)
    requires
        i64::MIN <= timestamp_value(s) <= i64::MAX,
    ensures
        literal_value(LiteralV::Timestamp(s)) matches ValueV::Timestamp(t) && t == timestamp_value(
            s,
        ),
{
}

/// The conditions of a predicate that is a conjunction are those that it asks for; one that
/// is none, or is not there, gives none.
pub proof fn law_only_conjunctions_are_flat(v: Seq<FilterExprV>, e: FilterExprV, f: FilterV)
    ensures
        flat_conditions(None).len() == 0,
        flat_conditions(Some(FilterExprV::Condition(f))) == seq![f],
        flat_conditions(Some(FilterExprV::Or(v))).len() == 0,
        flat_conditions(Some(FilterExprV::Not(Box::new(e)))).len() == 0,
{
}

} // verus!
