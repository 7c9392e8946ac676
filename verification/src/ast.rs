//! The parts of a parsed statement that the engine reads.

use crate::bytes;
use crate::float;
use vstd::prelude::*;

verus! {

/// A literal of a statement.
#[derive(Debug)]
pub enum Literal {
    Int(i64),
    /// The bits of a double.
    Float(u64),
    Text(String),
    Bool(bool),
    Timestamp(String),
    Lid(String),
    Null,
    List(Vec<Literal>),
    Object(Vec<(String, Literal)>),
    /// A named parameter that is not bound yet.
    Param(String),
}

/// What a [`Literal`] stands for.
pub enum LiteralV {
    Int(i64),
    Float(u64),
    Text(Seq<char>),
    Bool(bool),
    Timestamp(Seq<char>),
    Lid(Seq<char>),
    Null,
    List(Seq<LiteralV>),
    Object(Seq<(Seq<char>, LiteralV)>),
    Param(Seq<char>),
}

/// The views of a list of literals.
pub open spec fn literals_view(s: Seq<Literal>) -> Seq<LiteralV>
    decreases s,
{
    Seq::new(
        s.len(),
        |i: int|
            if 0 <= i < s.len() {
                literal_view(s[i])
            } else {
                LiteralV::Null
            },
    )
}

/// The views of a list of named literals.
pub open spec fn named_literals_view(s: Seq<(String, Literal)>) -> Seq<(Seq<char>, LiteralV)>
    decreases s,
{
    Seq::new(
        s.len(),
        |i: int|
            if 0 <= i < s.len() {
                (s[i].0@, literal_view(s[i].1))
            } else {
                (Seq::empty(), LiteralV::Null)
            },
    )
}

pub open spec fn literal_view(l: Literal) -> LiteralV
    decreases l,
{
    match l {
        Literal::Int(n) => LiteralV::Int(n),
        Literal::Float(f) => LiteralV::Float(f),
        Literal::Text(s) => LiteralV::Text(s@),
        Literal::Bool(b) => LiteralV::Bool(b),
        Literal::Timestamp(s) => LiteralV::Timestamp(s@),
        Literal::Lid(s) => LiteralV::Lid(s@),
        Literal::Null => LiteralV::Null,
        Literal::List(items) => LiteralV::List(literals_view(items@)),
        Literal::Object(pairs) => LiteralV::Object(named_literals_view(pairs@)),
        Literal::Param(s) => LiteralV::Param(s@),
    }
}

impl View for Literal {
    type V = LiteralV;

    open spec fn view(&self) -> LiteralV {
        literal_view(*self)
    }
}

/// The literal holds no parameter.
pub open spec fn bound(l: LiteralV) -> bool
    decreases l,
{
    match l {
        LiteralV::Param(_) => false,
        LiteralV::List(items) => all_bound(items),
        LiteralV::Object(pairs) => pairs_bound(pairs),
        _ => true,
    }
}

/// No literal of the list holds a parameter.
pub open spec fn all_bound(items: Seq<LiteralV>) -> bool
    decreases items,
{
    forall|i: int| 0 <= i < items.len() ==> bound(#[trigger] items[i])
}

/// No named literal of the list holds a parameter.
pub open spec fn pairs_bound(pairs: Seq<(Seq<char>, LiteralV)>) -> bool
    decreases pairs,
{
    forall|i: int| 0 <= i < pairs.len() ==> bound((#[trigger] pairs[i]).1)
}

/// A copy of a list of literals.
pub fn clone_literals(items: &Vec<Literal>) -> (r: Vec<Literal>)
    ensures
        literals_view(r@) == literals_view(items@),
    decreases items,
{
    let mut r: Vec<Literal> = Vec::new();
    let mut i: usize = 0;
    while i < items.len()
        invariant
            i <= items@.len(),
            r@.len() == i,
            forall|j: int|
                0 <= j < i ==> literal_view(#[trigger] r@[j]) == literal_view(items@[j]),
        decreases items@.len() - i,
    {
        r.push(items[i].clone_literal());
        i = i + 1;
    }
    assert(literals_view(r@) =~= literals_view(items@));
    r
}

/// A copy of a list of named literals.
pub fn clone_named_literals(items: &Vec<(String, Literal)>) -> (r: Vec<(String, Literal)>)
    ensures
        named_literals_view(r@) == named_literals_view(items@),
    decreases items,
{
    let mut r: Vec<(String, Literal)> = Vec::new();
    let mut i: usize = 0;
    while i < items.len()
        invariant
            i <= items@.len(),
            r@.len() == i,
            forall|j: int|
                0 <= j < i ==> (#[trigger] r@[j]).0@ == items@[j].0@ && literal_view(r@[j].1)
                    == literal_view(items@[j].1),
        decreases items@.len() - i,
    {
        r.push((items[i].0.clone(), items[i].1.clone_literal()));
        i = i + 1;
    }
    assert(named_literals_view(r@) =~= named_literals_view(items@));
    r
}

impl Literal {
    /// A copy.
    pub fn clone_literal(&self) -> (r: Literal)
        ensures
            r@ == self@,
        decreases self,
    {
        match self {
            Literal::Int(n) => Literal::Int(*n),
            Literal::Float(f) => Literal::Float(*f),
            Literal::Text(s) => Literal::Text(s.clone()),
            Literal::Bool(b) => Literal::Bool(*b),
            Literal::Timestamp(s) => Literal::Timestamp(s.clone()),
            Literal::Lid(s) => Literal::Lid(s.clone()),
            Literal::Null => Literal::Null,
            Literal::List(items) => Literal::List(clone_literals(items)),
            Literal::Object(pairs) => Literal::Object(clone_named_literals(pairs)),
            Literal::Param(s) => Literal::Param(s.clone()),
        }
    }
}

/// A comparison of a statement's predicate.
#[derive(Clone, Copy, Debug, PartialEq, Eq, Structural)]
pub enum FilterOp {
    Eq,
    Neq,
    Gt,
    Gte,
    Lt,
    Lte,
    IsNull,
    IsNotNull,
    Contains,
    In,
}

/// One predicate: a field compared with a literal.
#[derive(Debug)]
pub struct Filter {
    pub field: String,
    pub op: FilterOp,
    pub value: Literal,
}

/// What a [`Filter`] stands for.
pub struct FilterV {
    pub field: Seq<char>,
    pub op: FilterOp,
    pub value: LiteralV,
}

impl View for Filter {
    type V = FilterV;

    open spec fn view(&self) -> FilterV {
        FilterV { field: self.field@, op: self.op, value: self.value@ }
    }
}

impl Filter {
    /// A copy.
    pub fn clone_filter(&self) -> (r: Filter)
        ensures
            r@ == self@,
    {
        Filter { field: self.field.clone(), op: self.op, value: self.value.clone_literal() }
    }
}

/// The views of a list of filters.
pub open spec fn filters_view(s: Seq<Filter>) -> Seq<FilterV> {
    Seq::new(s.len(), |i: int| s[i]@)
}

/// A copy of a list of filters.
pub fn clone_filters(items: &Vec<Filter>) -> (r: Vec<Filter>)
    ensures
        filters_view(r@) == filters_view(items@),
{
    let mut r: Vec<Filter> = Vec::new();
    let mut i: usize = 0;
    while i < items.len()
        invariant
            i <= items@.len(),
            r@.len() == i,
            forall|j: int| 0 <= j < i ==> (#[trigger] r@[j])@ == items@[j]@,
        decreases items@.len() - i,
    {
        r.push(items[i].clone_filter());
        i = i + 1;
    }
    assert(filters_view(r@) =~= filters_view(items@));
    r
}

/// A statement's predicate.
#[derive(Debug)]
pub enum FilterExpr {
    Condition(Filter),
    And(Vec<FilterExpr>),
    Or(Vec<FilterExpr>),
    Not(Box<FilterExpr>),
}

/// What a [`FilterExpr`] stands for.
pub enum FilterExprV {
    Condition(FilterV),
    And(Seq<FilterExprV>),
    Or(Seq<FilterExprV>),
    Not(Box<FilterExprV>),
}

/// The views of a list of expressions.
pub open spec fn exprs_view(s: Seq<FilterExpr>) -> Seq<FilterExprV>
    decreases s,
{
    Seq::new(
        s.len(),
        |i: int|
            if 0 <= i < s.len() {
                expr_view(s[i])
            } else {
                FilterExprV::And(Seq::empty())
            },
    )
}

pub open spec fn expr_view(e: FilterExpr) -> FilterExprV
    decreases e,
{
    match e {
        FilterExpr::Condition(f) => FilterExprV::Condition(f@),
        FilterExpr::And(v) => FilterExprV::And(exprs_view(v@)),
        FilterExpr::Or(v) => FilterExprV::Or(exprs_view(v@)),
        FilterExpr::Not(inner) => FilterExprV::Not(Box::new(expr_view(*inner))),
    }
}

impl View for FilterExpr {
    type V = FilterExprV;

    open spec fn view(&self) -> FilterExprV {
        expr_view(*self)
    }
}

/// Every literal of the expression is bound.
pub open spec fn expr_bound(e: FilterExprV) -> bool
    decreases e,
{
    match e {
        FilterExprV::Condition(f) => bound(f.value),
        FilterExprV::And(v) => exprs_bound(v),
        FilterExprV::Or(v) => exprs_bound(v),
        FilterExprV::Not(inner) => expr_bound(*inner),
    }
}

/// Every literal of the expressions is bound.
pub open spec fn exprs_bound(v: Seq<FilterExprV>) -> bool
    decreases v,
{
    forall|i: int| 0 <= i < v.len() ==> expr_bound(#[trigger] v[i])
}

/// A copy of a list of expressions.
pub fn clone_exprs(items: &Vec<FilterExpr>) -> (r: Vec<FilterExpr>)
    ensures
        exprs_view(r@) == exprs_view(items@),
    decreases items,
{
    let mut r: Vec<FilterExpr> = Vec::new();
    let mut i: usize = 0;
    while i < items.len()
        invariant
            i <= items@.len(),
            r@.len() == i,
            forall|j: int| 0 <= j < i ==> expr_view(#[trigger] r@[j]) == expr_view(items@[j]),
        decreases items@.len() - i,
    {
        r.push(items[i].clone_expr());
        i = i + 1;
    }
    assert(exprs_view(r@) =~= exprs_view(items@));
    r
}

impl FilterExpr {
    /// A copy.
    pub fn clone_expr(&self) -> (r: FilterExpr)
        ensures
            r@ == self@,
        decreases self,
    {
        match self {
            FilterExpr::Condition(f) => FilterExpr::Condition(f.clone_filter()),
            FilterExpr::And(v) => FilterExpr::And(clone_exprs(v)),
            FilterExpr::Or(v) => FilterExpr::Or(clone_exprs(v)),
            FilterExpr::Not(inner) => FilterExpr::Not(Box::new(inner.clone_expr())),
        }
    }
}

// ---------------------------------------------------------------------------
// Equality
// ---------------------------------------------------------------------------
/// Two literals are equal; doubles compare by value.
pub open spec fn literal_eq(a: LiteralV, b: LiteralV) -> bool
    decreases a,
{
    match (a, b) {
        (LiteralV::Float(x), LiteralV::Float(y)) => float::float_eq(x, y),
        (LiteralV::List(x), LiteralV::List(y)) => x.len() == y.len() && forall|i: int|
            0 <= i < x.len() ==> literal_eq(#[trigger] x[i], y[i]),
        (LiteralV::Object(x), LiteralV::Object(y)) => x.len() == y.len() && forall|i: int|
            0 <= i < x.len() ==> (#[trigger] x[i]).0 == y[i].0 && literal_eq(x[i].1, y[i].1),
        (LiteralV::Float(_), _) => false,
        (LiteralV::List(_), _) => false,
        (LiteralV::Object(_), _) => false,
        _ => a == b,
    }
}

/// Two expressions are equal in structure.
pub open spec fn expr_eq(a: FilterExprV, b: FilterExprV) -> bool
    decreases a,
{
    match (a, b) {
        (FilterExprV::Condition(x), FilterExprV::Condition(y)) => x.field == y.field && x.op
            == y.op && literal_eq(x.value, y.value),
        (FilterExprV::And(x), FilterExprV::And(y)) => x.len() == y.len() && forall|i: int|
            0 <= i < x.len() ==> expr_eq(#[trigger] x[i], y[i]),
        (FilterExprV::Or(x), FilterExprV::Or(y)) => x.len() == y.len() && forall|i: int|
            0 <= i < x.len() ==> expr_eq(#[trigger] x[i], y[i]),
        (FilterExprV::Not(x), FilterExprV::Not(y)) => expr_eq(*x, *y),
        _ => false,
    }
}

fn literal_lists_equal(a: &Vec<Literal>, b: &Vec<Literal>) -> (r: bool)
    ensures
        r == literal_eq(
            LiteralV::List(literals_view(a@)),
            LiteralV::List(literals_view(b@)),
        ),
    decreases a,
{
    if a.len() != b.len() {
        return false;
    }
    let mut i: usize = 0;
    while i < a.len()
        invariant
            i <= a@.len(),
            a@.len() == b@.len(),
            forall|j: int|
                0 <= j < i ==> literal_eq(#[trigger] literals_view(a@)[j], literals_view(b@)[j]),
        decreases a@.len() - i,
    {
        if !literals_equal(&a[i], &b[i]) {
            assert(!literal_eq(literals_view(a@)[i as int], literals_view(b@)[i as int]));
            return false;
        }
        i = i + 1;
    }
    true
}

fn named_literals_equal(a: &Vec<(String, Literal)>, b: &Vec<(String, Literal)>) -> (r: bool)
    ensures
        r == literal_eq(
            LiteralV::Object(named_literals_view(a@)),
            LiteralV::Object(named_literals_view(b@)),
        ),
    decreases a,
{
    if a.len() != b.len() {
        return false;
    }
    let mut i: usize = 0;
    while i < a.len()
        invariant
            i <= a@.len(),
            a@.len() == b@.len(),
            forall|j: int|
                0 <= j < i ==> (#[trigger] named_literals_view(a@)[j]).0 == named_literals_view(
                    b@,
                )[j].0 && literal_eq(named_literals_view(a@)[j].1, named_literals_view(b@)[j].1),
        decreases a@.len() - i,
    {
        if !bytes::str_equal(a[i].0.as_str(), b[i].0.as_str()) || !literals_equal(
            &a[i].1,
            &b[i].1,
        ) {
            assert(named_literals_view(a@)[i as int].0 != named_literals_view(b@)[i as int].0
                || !literal_eq(
                named_literals_view(a@)[i as int].1,
                named_literals_view(b@)[i as int].1,
            ));
            return false;
        }
        i = i + 1;
    }
    true
}

/// Whether two literals are equal.
pub fn literals_equal(a: &Literal, b: &Literal) -> (r: bool)
    ensures
        r == literal_eq(a@, b@),
    decreases a,
{
    match (a, b) {
        (Literal::Int(x), Literal::Int(y)) => *x == *y,
        (Literal::Float(x), Literal::Float(y)) => float::equal(*x, *y),
        (Literal::Text(x), Literal::Text(y)) => bytes::str_equal(x.as_str(), y.as_str()),
        (Literal::Bool(x), Literal::Bool(y)) => *x == *y,
        (Literal::Timestamp(x), Literal::Timestamp(y)) => bytes::str_equal(
            x.as_str(),
            y.as_str(),
        ),
        (Literal::Lid(x), Literal::Lid(y)) => bytes::str_equal(x.as_str(), y.as_str()),
        (Literal::Null, Literal::Null) => true,
        (Literal::List(x), Literal::List(y)) => literal_lists_equal(x, y),
        (Literal::Object(x), Literal::Object(y)) => named_literals_equal(x, y),
        (Literal::Param(x), Literal::Param(y)) => bytes::str_equal(x.as_str(), y.as_str()),
        _ => false,
    }
}

fn expr_lists_equal(a: &Vec<FilterExpr>, b: &Vec<FilterExpr>) -> (r: bool)
    ensures
        r == expr_eq(FilterExprV::And(exprs_view(a@)), FilterExprV::And(exprs_view(b@))),
        r == expr_eq(FilterExprV::Or(exprs_view(a@)), FilterExprV::Or(exprs_view(b@))),
    decreases a,
{
    if a.len() != b.len() {
        return false;
    }
    let mut i: usize = 0;
    while i < a.len()
        invariant
            i <= a@.len(),
            a@.len() == b@.len(),
            forall|j: int|
                0 <= j < i ==> expr_eq(#[trigger] exprs_view(a@)[j], exprs_view(b@)[j]),
        decreases a@.len() - i,
    {
        if !exprs_equal(&a[i], &b[i]) {
            assert(!expr_eq(exprs_view(a@)[i as int], exprs_view(b@)[i as int]));
            return false;
        }
        i = i + 1;
    }
    true
}

/// Whether two expressions are equal in structure.
pub fn exprs_equal(a: &FilterExpr, b: &FilterExpr) -> (r: bool)
    ensures
        r == expr_eq(a@, b@),
    decreases a,
{
    match (a, b) {
        (FilterExpr::Condition(x), FilterExpr::Condition(y)) => bytes::str_equal(
            x.field.as_str(),
            y.field.as_str(),
        ) && x.op == y.op && literals_equal(&x.value, &y.value),
        (FilterExpr::And(x), FilterExpr::And(y)) => expr_lists_equal(x, y),
        (FilterExpr::Or(x), FilterExpr::Or(y)) => expr_lists_equal(x, y),
        (FilterExpr::Not(x), FilterExpr::Not(y)) => exprs_equal(x, y),
        _ => false,
    }
}

// ---------------------------------------------------------------------------
// Flat conjunctions
// ---------------------------------------------------------------------------
/// The expression is a conjunction of plain conditions: it holds neither an
/// `Or` nor a `Not`.
pub open spec fn is_flat(e: FilterExprV) -> bool
    decreases e,
{
    match e {
        FilterExprV::Condition(_) => true,
        FilterExprV::And(v) => all_flat(v),
        _ => false,
    }
}

/// Every expression of the list is a conjunction.
pub open spec fn all_flat(v: Seq<FilterExprV>) -> bool
    decreases v,
{
    forall|i: int| 0 <= i < v.len() ==> is_flat(#[trigger] v[i])
}

/// The conditions of a conjunction, from left to right.
pub open spec fn conditions(e: FilterExprV) -> Seq<FilterV>
    decreases e, 1nat,
{
    match e {
        FilterExprV::Condition(f) => seq![f],
        FilterExprV::And(v) => conditions_of(v, v.len()),
        _ => Seq::empty(),
    }
}

/// The conditions of the first `n` members of a conjunction.
pub open spec fn conditions_of(v: Seq<FilterExprV>, n: nat) -> Seq<FilterV>
    decreases v, 0nat, n,
{
    if n == 0 || n > v.len() {
        Seq::empty()
    } else {
        conditions_of(v, (n - 1) as nat) + conditions(v[n - 1])
    }
}

/// What a literal stands for is what it says, with its kind.
pub proof fn law_literal_stands_for_what_it_says(l: Literal)
    ensures
        match l {
            Literal::Null => l@ == LiteralV::Null,
            Literal::Bool(b) => l@ == LiteralV::Bool(b),
            Literal::Int(n) => l@ == LiteralV::Int(n),
            Literal::Float(x) => l@ == LiteralV::Float(x),
            Literal::Text(s) => l@ == LiteralV::Text(s@),
            Literal::Timestamp(s) => l@ == LiteralV::Timestamp(s@),
            Literal::Lid(s) => l@ == LiteralV::Lid(s@),
            Literal::Param(s) => l@ == LiteralV::Param(s@),
            Literal::List(items) => l@ is List && l@->List_0.len() == items@.len() && forall|
                i: int,
            |
                0 <= i < items@.len() ==> #[trigger] l@->List_0[i] == items@[i]@,
            Literal::Object(members) => l@ is Object && l@->Object_0.len() == members@.len()
                && forall|i: int|
                0 <= i < members@.len() ==> #[trigger] l@->Object_0[i] == (
                    members@[i].0@,
                    members@[i].1@,
                ),
        },
{
}

/// Two literals are equal where they are of one kind and say the same, numbers by value.
pub proof fn law_equal_literals_say_the_same(a: LiteralV, b: LiteralV)
    ensures
        a is Int || a is Text || a is Bool || a is Null || a is Timestamp || a is Lid || a is Param
            ==> (literal_eq(a, b) <==> a == b),
        a is Float && b is Float && float::is_finite(a->Float_0) && float::is_finite(b->Float_0)
            ==> (literal_eq(a, b) <==> float::units(a->Float_0) == float::units(b->Float_0)),
        a is Float && !(b is Float) ==> !literal_eq(a, b),
        a is List && !(b is List) ==> !literal_eq(a, b),
        a is Object && !(b is Object) ==> !literal_eq(a, b),
{
    match (a, b) {
        (LiteralV::Float(x), LiteralV::Float(y)) => {
            float::law_doubles_compare_as_numbers(x, y);
            float::law_doubles_compare_as_numbers(y, x);
        },
        _ => {},
    }
}

} // verus!
