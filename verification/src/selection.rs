//! Which records a condition selects, where a function says of single predicates
//! whether a record satisfies them.

use crate::ast;
use crate::ast::{FilterExpr, FilterExprV};
use crate::filter;
use crate::filter::{CoreExprV, CoreFilterExpr};
use crate::record;
use crate::record::{FilterOp, Record, RecordV};
use crate::text;
use crate::value::{Value, ValueV};
use vstd::prelude::*;

verus! {

/// `test` says of every record and every predicate whether the record satisfies
/// it, by what the two stand for.
pub open spec fn tests<T: Fn(&Record, &(String, FilterOp, Value)) -> bool>(test: T) -> bool {
    &&& forall|r: &Record, p: &(String, FilterOp, Value)| #[trigger] test.requires((r, p))
    &&& forall|
        r: &Record,
        p: &(String, FilterOp, Value),
        s: &Record,
        q: &(String, FilterOp, Value),
        a: bool,
        b: bool,
    |
        #![trigger test.ensures((r, p), a), test.ensures((s, q), b)]
        test.ensures((r, p), a) && test.ensures((s, q), b) && r@ == s@ && record::predicate_view(*p)
            == record::predicate_view(*q) ==> a == b
}

/// The record satisfies the predicate.
pub open spec fn satisfies<T: Fn(&Record, &(String, FilterOp, Value)) -> bool>(
    test: T,
    r: RecordV,
    p: (Seq<char>, FilterOp, ValueV),
) -> bool {
    exists|s: &Record, q: &(String, FilterOp, Value)|
        s@ == r && record::predicate_view(*q) == p && #[trigger] test.ensures((s, q), true)
}

/// The predicates that a record satisfies.
pub open spec fn truth_of<T: Fn(&Record, &(String, FilterOp, Value)) -> bool>(
    test: T,
    r: RecordV,
) -> spec_fn((Seq<char>, FilterOp, ValueV)) -> bool {
    |p: (Seq<char>, FilterOp, ValueV)| satisfies(test, r, p)
}

/// The record passes the condition; without one every record does.
pub open spec fn passes<T: Fn(&Record, &(String, FilterOp, Value)) -> bool>(
    test: T,
    f: Option<FilterExprV>,
    r: RecordV,
) -> bool {
    match f {
        Some(e) => filter::holds(filter::core_tree(e), truth_of(test, r)),
        None => true,
    }
}

/// The condition has no parameter that is not bound.
pub open spec fn bound(f: Option<FilterExprV>) -> bool {
    f matches Some(e) ==> ast::expr_bound(e)
}

/// Whether a record satisfies a predicate.
pub fn record_satisfies<T: Fn(&Record, &(String, FilterOp, Value)) -> bool>(
    test: &T,
    r: &Record,
    p: &(String, FilterOp, Value),
) -> (b: bool)
    requires
        tests(*test),
    ensures
        b == satisfies(*test, r@, record::predicate_view(*p)),
{
    let b = test(r, p);
    proof {
        if satisfies(*test, r@, record::predicate_view(*p)) {
            let (s, q) = choose|s: &Record, q: &(String, FilterOp, Value)|
                s@ == r@ && record::predicate_view(*q) == record::predicate_view(*p)
                    && #[trigger] test.ensures((s, q), true);
            assert(test.ensures((s, q), true));
        }
    }
    b
}

/// The record satisfies every predicate.
pub open spec fn satisfies_all<T: Fn(&Record, &(String, FilterOp, Value)) -> bool>(
    test: T,
    r: RecordV,
    predicates: Seq<(Seq<char>, FilterOp, ValueV)>,
) -> bool {
    forall|i: int| 0 <= i < predicates.len() ==> satisfies(test, r, #[trigger] predicates[i])
}

/// Whether a record satisfies every predicate.
pub fn record_satisfies_all<T: Fn(&Record, &(String, FilterOp, Value)) -> bool>(
    test: &T,
    r: &Record,
    predicates: &[(String, FilterOp, Value)],
) -> (b: bool)
    requires
        tests(*test),
    ensures
        b == satisfies_all(*test, r@, record::predicates_view(predicates@)),
{
    let ghost ps = record::predicates_view(predicates@);
    let mut i: usize = 0;
    while i < predicates.len()
        invariant
            tests(*test),
            i <= predicates@.len(),
            ps == record::predicates_view(predicates@),
            forall|j: int| 0 <= j < i ==> satisfies(*test, r@, #[trigger] ps[j]),
        decreases predicates@.len() - i,
    {
        assert(ps[i as int] == record::predicate_view(predicates@[i as int]));
        if !record_satisfies(test, r, &predicates[i]) {
            return false;
        }
        i = i + 1;
    }
    true
}

/// Whether a record satisfies a prepared condition.
pub fn record_holds<T: Fn(&Record, &(String, FilterOp, Value)) -> bool>(
    test: &T,
    core: &CoreFilterExpr,
    r: &Record,
) -> (b: bool)
    requires
        tests(*test),
    ensures
        b == filter::holds(core@, truth_of(*test, r@)),
{
    let leaf = |p: &(String, FilterOp, Value)| -> (b: bool)
        ensures
            b == satisfies(*test, r@, record::predicate_view(*p)),
        { record_satisfies(test, r, p) };
    let ghost truth = truth_of(*test, r@);
    filter::evaluate(core, &leaf, Ghost(truth))
}

/// Whether a record passes a condition.
pub fn record_passes<T: Fn(&Record, &(String, FilterOp, Value)) -> bool>(
    test: &T,
    f: &Option<FilterExpr>,
    r: &Record,
) -> (b: bool)
    requires
        tests(*test),
        bound(filter::opt_expr_view(*f)),
    ensures
        b == passes(*test, filter::opt_expr_view(*f), r@),
{
    match f {
        None => true,
        Some(e) => record_holds(test, &filter::to_core_expr(e), r),
    }
}

/// The records that pass the condition, in their order.
pub open spec fn selected<T: Fn(&Record, &(String, FilterOp, Value)) -> bool>(
    test: T,
    f: Option<FilterExprV>,
    s: Seq<Record>,
) -> Seq<Record>
    decreases s.len(),
{
    if s.len() == 0 {
        Seq::empty()
    } else {
        let d = selected(test, f, s.drop_last());
        if passes(test, f, s.last()@) {
            d.push(s.last())
        } else {
            d
        }
    }
}

/// What is selected are exactly the records that pass: every one of them passes
/// and is one of the records, and every record that passes is selected.
pub proof fn law_selected_pass<T: Fn(&Record, &(String, FilterOp, Value)) -> bool>(
    test: T,
    f: Option<FilterExprV>,
    s: Seq<Record>,
)
    ensures
        forall|i: int|
            0 <= i < selected(test, f, s).len() ==> passes(
                test,
                f,
                (#[trigger] selected(test, f, s)[i])@,
            ) && s.contains(selected(test, f, s)[i]),
        forall|i: int|
            0 <= i < s.len() && passes(test, f, (#[trigger] s[i])@) ==> selected(
                test,
                f,
                s,
            ).contains(s[i]),
    decreases s.len(),
{
    if s.len() > 0 {
        let d = s.drop_last();
        let r = selected(test, f, s);
        let q = selected(test, f, d);
        law_selected_pass(test, f, d);
        assert forall|i: int| 0 <= i < r.len() implies passes(test, f, (#[trigger] r[i])@)
            && s.contains(r[i]) by {
            if i < q.len() {
                assert(r[i] == q[i]);
                let j = choose|j: int| 0 <= j < d.len() && d[j] == q[i];
                assert(s[j] == r[i]);
            } else {
                assert(s[s.len() - 1] == r[i]);
            }
        }
        assert forall|i: int| 0 <= i < s.len() && passes(test, f, (#[trigger] s[i])@) implies
            r.contains(s[i]) by {
            if i < d.len() {
                assert(d[i] == s[i]);
                assert(q.contains(d[i]));
                let j = choose|j: int| 0 <= j < q.len() && q[j] == d[i];
                assert(r[j] == s[i]);
            } else {
                assert(r[r.len() - 1] == s[i]);
            }
        }
    }
}

// ---------------------------------------------------------------------------
// Records that hold only some fields
// ---------------------------------------------------------------------------
/// The name is one of those, and no path into a field.
pub open spec fn names_field(names: Seq<Seq<char>>, name: Seq<char>) -> bool {
    names.contains(name) && !name.contains('.')
}

fn is_field_name(names: &[String], name: &str) -> (r: bool)
    ensures
        r == names_field(text::names(names@), name@),
{
    if !text::names_contain(names, name) {
        return false;
    }
    let chars = text::chars_of(name);
    let mut i: usize = 0;
    while i < chars.len()
        invariant
            chars@ == name@,
            i <= chars@.len(),
            forall|j: int| 0 <= j < i ==> #[trigger] chars@[j] != '.',
        decreases chars@.len() - i,
    {
        if chars[i] == '.' {
            assert(name@[i as int] == '.');
            return false;
        }
        i = i + 1;
    }
    true
}

/// The tree asks only for fields with these names.
pub open spec fn asks_only(e: CoreExprV, names: Seq<Seq<char>>) -> bool
    decreases e,
{
    match e {
        CoreExprV::Leaf(p) => names_field(names, p.0),
        CoreExprV::And(v) => all_ask_only(v, names),
        CoreExprV::Or(v) => all_ask_only(v, names),
        CoreExprV::Not(inner) => asks_only(*inner, names),
    }
}

/// Every tree of the list asks only for fields with these names.
pub open spec fn all_ask_only(v: Seq<CoreExprV>, names: Seq<Seq<char>>) -> bool
    decreases v,
{
    forall|i: int| 0 <= i < v.len() ==> asks_only(#[trigger] v[i], names)
}

fn tree_asks_only(e: &CoreFilterExpr, names: &[String]) -> (r: bool)
    ensures
        r == asks_only(e@, text::names(names@)),
    decreases e,
{
    match e {
        CoreFilterExpr::Leaf(t) => is_field_name(names, t.0.as_str()),
        CoreFilterExpr::And(v) => trees_ask_only(v, names),
        CoreFilterExpr::Or(v) => trees_ask_only(v, names),
        CoreFilterExpr::Not(inner) => tree_asks_only(inner, names),
    }
}

fn trees_ask_only(v: &Vec<CoreFilterExpr>, names: &[String]) -> (r: bool)
    ensures
        r == all_ask_only(filter::cores_view(v@), text::names(names@)),
    decreases v,
{
    let ghost es = filter::cores_view(v@);
    let mut i: usize = 0;
    while i < v.len()
        invariant
            i <= v@.len(),
            es == filter::cores_view(v@),
            forall|j: int| 0 <= j < i ==> asks_only(#[trigger] es[j], text::names(names@)),
        decreases v@.len() - i,
    {
        assert(es[i as int] == v@[i as int]@);
        if !tree_asks_only(&v[i], names) {
            assert(!asks_only(es[i as int], text::names(names@)));
            return false;
        }
        i = i + 1;
    }
    true
}

/// Whether a record that holds the fields of a projection alone can be tested in
/// place of the whole one: the condition asks for no other field, and for none by
/// a path into it.
pub fn projection_answers(projection: &[String], f: &Option<FilterExpr>) -> (r: bool)
    requires
        bound(filter::opt_expr_view(*f)),
    ensures
        r == match filter::opt_expr_view(*f) {
            Some(e) => asks_only(filter::core_tree(e), text::names(projection@)),
            None => true,
        },
{
    match f {
        None => true,
        Some(e) => tree_asks_only(&filter::to_core_expr(e), projection),
    }
}

/// Two records that satisfy the same predicates on the fields of a projection
/// pass the same of the conditions that the projection answers.
pub proof fn law_projection_answers(
    e: CoreExprV,
    names: Seq<Seq<char>>,
    a: spec_fn((Seq<char>, FilterOp, ValueV)) -> bool,
    b: spec_fn((Seq<char>, FilterOp, ValueV)) -> bool,
)
    requires
        asks_only(e, names),
        forall|p: (Seq<char>, FilterOp, ValueV)|
            names_field(names, p.0) ==> (#[trigger] a(p) == b(p)),
    ensures
        filter::holds(e, a) == filter::holds(e, b),
    decreases e,
{
    match e {
        CoreExprV::Leaf(p) => {
            assert(a(p) == b(p));
        },
        CoreExprV::And(v) => {
            lemma_projection_answers_all(v, names, a, b);
        },
        CoreExprV::Or(v) => {
            lemma_projection_answers_all(v, names, a, b);
        },
        CoreExprV::Not(inner) => {
            law_projection_answers(*inner, names, a, b);
        },
    }
}

proof fn lemma_projection_answers_all(
    v: Seq<CoreExprV>,
    names: Seq<Seq<char>>,
    a: spec_fn((Seq<char>, FilterOp, ValueV)) -> bool,
    b: spec_fn((Seq<char>, FilterOp, ValueV)) -> bool,
)
    requires
        all_ask_only(v, names),
        forall|p: (Seq<char>, FilterOp, ValueV)|
            names_field(names, p.0) ==> (#[trigger] a(p) == b(p)),
    ensures
        filter::all_hold(v, a) == filter::all_hold(v, b),
        filter::any_holds(v, a) == filter::any_holds(v, b),
    decreases v,
{
    assert forall|i: int| 0 <= i < v.len() implies filter::holds(#[trigger] v[i], a)
        == filter::holds(v[i], b) by {
        assert(asks_only(v[i], names));
        law_projection_answers(v[i], names, a, b);
    }
}

// ---------------------------------------------------------------------------
// What a condition asks
// ---------------------------------------------------------------------------
/// The operator of the predicate is the one that the condition is written with.
pub open spec fn same_operator(written: ast::FilterOp, asked: FilterOp) -> bool {
    match asked {
        FilterOp::Eq => written is Eq,
        FilterOp::Neq => written is Neq,
        FilterOp::Gt => written is Gt,
        FilterOp::Gte => written is Gte,
        FilterOp::Lt => written is Lt,
        FilterOp::Lte => written is Lte,
        FilterOp::IsNull => written is IsNull,
        FilterOp::IsNotNull => written is IsNotNull,
        FilterOp::Contains => written is Contains,
        FilterOp::In => written is In,
    }
}

/// A record passes a single condition exactly where the test says of it that it
/// satisfies the field, the operator and the value that the condition is written with.
pub proof fn law_condition_is_tested<T: Fn(&Record, &(String, FilterOp, Value)) -> bool>(
    test: T,
    f: ast::FilterV,
    r: &Record,
    q: &(String, FilterOp, Value),
    verdict: bool,
)
    requires
        tests(test),
        test.ensures((r, q), verdict),
        q.0@ == f.field,
        same_operator(f.op, q.1),
        match f.value {
            ast::LiteralV::Int(n) => q.2@ == ValueV::Int(n),
            ast::LiteralV::Float(x) => q.2@ == ValueV::Float(x),
            ast::LiteralV::Text(t) => q.2@ == ValueV::Text(t),
            ast::LiteralV::Bool(b) => q.2@ == ValueV::Bool(b),
            ast::LiteralV::Null => q.2@ == ValueV::Null,
            ast::LiteralV::Lid(t) => q.2@ == ValueV::Text(t),
            _ => q.2@ == filter::literal_value(f.value),
        },
    ensures
        passes(test, Some(FilterExprV::Condition(f)), r@) == verdict,
{
    let p = record::predicate_view(*q);
    assert(p == filter::core_predicate(f));
    assert(filter::core_tree(FilterExprV::Condition(f)) == CoreExprV::Leaf(p));
    assert(filter::holds(CoreExprV::Leaf(p), truth_of(test, r@)) == truth_of(test, r@)(p));
    if satisfies(test, r@, p) {
        let (s, t) = choose|s: &Record, t: &(String, FilterOp, Value)|
            s@ == r@ && record::predicate_view(*t) == p && #[trigger] test.ensures((s, t), true);
        assert(test.ensures((s, t), true));
    }
}

/// A record passes a conjunction where it passes every member, a disjunction where it
/// passes some member, and a negation where it does not pass what is negated. Without a
/// condition it passes.
pub proof fn law_connectives<T: Fn(&Record, &(String, FilterOp, Value)) -> bool>(
    test: T,
    v: Seq<FilterExprV>,
    e: FilterExprV,
    r: RecordV,
)
    ensures
        passes(test, Some(FilterExprV::And(v)), r) <==> forall|i: int|
            0 <= i < v.len() ==> passes(test, Some(#[trigger] v[i]), r),
        passes(test, Some(FilterExprV::Or(v)), r) <==> exists|i: int|
            0 <= i < v.len() && passes(test, Some(#[trigger] v[i]), r),
        passes(test, Some(FilterExprV::Not(Box::new(e))), r) <==> !passes(test, Some(e), r),
        passes(test, None, r),
{
    let truth = truth_of(test, r);
    let w = filter::core_trees(v);
    assert(filter::core_tree(FilterExprV::And(v)) == CoreExprV::And(w));
    assert(filter::core_tree(FilterExprV::Or(v)) == CoreExprV::Or(w));
    let inner = filter::core_tree(e);
    assert(filter::core_tree(FilterExprV::Not(Box::new(e))) == CoreExprV::Not(Box::new(inner)));
    assert(filter::holds(CoreExprV::And(w), truth) == filter::all_hold(w, truth));
    assert(filter::holds(CoreExprV::Or(w), truth) == filter::any_holds(w, truth));
    assert(filter::holds(CoreExprV::Not(Box::new(inner)), truth) == !filter::holds(inner, truth));
    assert forall|i: int| 0 <= i < v.len() implies filter::holds(#[trigger] w[i], truth) == passes(
        test,
        Some(v[i]),
        r,
    ) by {}
    if forall|i: int| 0 <= i < v.len() ==> passes(test, Some(#[trigger] v[i]), r) {
        assert forall|i: int| 0 <= i < w.len() implies filter::holds(#[trigger] w[i], truth) by {
            assert(passes(test, Some(v[i]), r));
        }
    }
    if filter::all_hold(w, truth) {
        assert forall|i: int| 0 <= i < v.len() implies passes(test, Some(#[trigger] v[i]), r) by {
            assert(filter::holds(w[i], truth));
        }
    }
    if filter::any_holds(w, truth) {
        let i = choose|i: int| 0 <= i < w.len() && filter::holds(#[trigger] w[i], truth);
        assert(passes(test, Some(v[i]), r));
    }
    if exists|i: int| 0 <= i < v.len() && passes(test, Some(#[trigger] v[i]), r) {
        let i = choose|i: int| 0 <= i < v.len() && passes(test, Some(#[trigger] v[i]), r);
        assert(filter::holds(w[i], truth));
    }
}

/// The records selected are those that pass, each as often as it is there, in their
/// order.
pub proof fn law_selected_in_order<T: Fn(&Record, &(String, FilterOp, Value)) -> bool>(
    test: T,
    f: Option<FilterExprV>,
    s: Seq<Record>,
)
    ensures
        selected(test, f, s) == s.filter(|r: Record| passes(test, f, r@)),
    decreases s.len(),
{
    reveal(Seq::filter);
    if s.len() > 0 {
        law_selected_in_order(test, f, s.drop_last());
    }
}

} // verus!
