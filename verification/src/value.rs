//! Field values.
//!
//! A number with a fraction is held as the bit pattern of its IEEE 754
//! double, a component of an embedding as the pattern of its single.

use crate::bytes;
use crate::float;
use vstd::prelude::*;

verus! {

/// A field's value.
#[derive(Debug)]
pub enum Value {
    Null,
    Bool(bool),
    Int(i64),
    /// The bits of a double.
    Float(u64),
    Text(String),
    /// Microseconds since the epoch.
    Timestamp(i64),
    Bytes(Vec<u8>),
    List(Vec<Value>),
    Object(Vec<(String, Value)>),
    /// The bits of packed singles.
    Vector(Vec<u32>),
}

/// What a [`Value`] stands for.
pub enum ValueV {
    Null,
    Bool(bool),
    Int(i64),
    Float(u64),
    Text(Seq<char>),
    Timestamp(i64),
    Bytes(Seq<u8>),
    List(Seq<ValueV>),
    Object(Seq<(Seq<char>, ValueV)>),
    Vector(Seq<u32>),
}

/// The views of a list of values.
pub open spec fn values_view(s: Seq<Value>) -> Seq<ValueV>
    decreases s,
{
    Seq::new(
        s.len(),
        |i: int|
            if 0 <= i < s.len() {
                value_view(s[i])
            } else {
                ValueV::Null
            },
    )
}

/// The views of a list of named values.
pub open spec fn pairs_view(s: Seq<(String, Value)>) -> Seq<(Seq<char>, ValueV)>
    decreases s,
{
    Seq::new(
        s.len(),
        |i: int|
            if 0 <= i < s.len() {
                (s[i].0@, value_view(s[i].1))
            } else {
                (Seq::empty(), ValueV::Null)
            },
    )
}

pub open spec fn value_view(v: Value) -> ValueV
    decreases v,
{
    match v {
        Value::Null => ValueV::Null,
        Value::Bool(b) => ValueV::Bool(b),
        Value::Int(n) => ValueV::Int(n),
        Value::Float(f) => ValueV::Float(f),
        Value::Text(s) => ValueV::Text(s@),
        Value::Timestamp(t) => ValueV::Timestamp(t),
        Value::Bytes(b) => ValueV::Bytes(b@),
        Value::List(items) => ValueV::List(values_view(items@)),
        Value::Object(pairs) => ValueV::Object(pairs_view(pairs@)),
        Value::Vector(c) => ValueV::Vector(c@),
    }
}

impl View for Value {
    type V = ValueV;

    open spec fn view(&self) -> ValueV {
        value_view(*self)
    }
}

/// A copy of a list of values.
pub fn clone_values(items: &Vec<Value>) -> (r: Vec<Value>)
    ensures
        values_view(r@) == values_view(items@),
    decreases items,
{
    let mut r: Vec<Value> = Vec::new();
    let mut i: usize = 0;
    while i < items.len()
        invariant
            i <= items@.len(),
            r@.len() == i,
            forall|j: int| 0 <= j < i ==> value_view(#[trigger] r@[j]) == value_view(items@[j]),
        decreases items@.len() - i,
    {
        r.push(items[i].clone_value());
        i = i + 1;
    }
    assert(values_view(r@) =~= values_view(items@));
    r
}

/// A copy of a list of named values.
pub fn clone_pairs(items: &Vec<(String, Value)>) -> (r: Vec<(String, Value)>)
    ensures
        pairs_view(r@) == pairs_view(items@),
    decreases items,
{
    let mut r: Vec<(String, Value)> = Vec::new();
    let mut i: usize = 0;
    while i < items.len()
        invariant
            i <= items@.len(),
            r@.len() == i,
            forall|j: int|
                0 <= j < i ==> (#[trigger] r@[j]).0@ == items@[j].0@ && value_view(r@[j].1)
                    == value_view(items@[j].1),
        decreases items@.len() - i,
    {
        r.push((items[i].0.clone(), items[i].1.clone_value()));
        i = i + 1;
    }
    assert(pairs_view(r@) =~= pairs_view(items@));
    r
}

impl Value {
    /// A copy.
    pub fn clone_value(&self) -> (r: Value)
        ensures
            r@ == self@,
        decreases self,
    {
        match self {
            Value::Null => Value::Null,
            Value::Bool(b) => Value::Bool(*b),
            Value::Int(n) => Value::Int(*n),
            Value::Float(f) => Value::Float(*f),
            Value::Text(s) => Value::Text(s.clone()),
            Value::Timestamp(t) => Value::Timestamp(*t),
            Value::Bytes(b) => Value::Bytes(b.clone()),
            Value::List(items) => Value::List(clone_values(items)),
            Value::Object(pairs) => Value::Object(clone_pairs(pairs)),
            Value::Vector(c) => Value::Vector(c.clone()),
        }
    }
}

// ---------------------------------------------------------------------------
// Equality
// ---------------------------------------------------------------------------
/// Two values are equal: the same variant with equal content, floating-point
/// numbers by value.
pub open spec fn value_eq(a: ValueV, b: ValueV) -> bool
    decreases a,
{
    match (a, b) {
        (ValueV::Float(x), ValueV::Float(y)) => float::float_eq(x, y),
        (ValueV::List(x), ValueV::List(y)) => x.len() == y.len() && forall|i: int|
            0 <= i < x.len() ==> value_eq(#[trigger] x[i], y[i]),
        (ValueV::Object(x), ValueV::Object(y)) => x.len() == y.len() && forall|i: int|
            0 <= i < x.len() ==> (#[trigger] x[i]).0 == y[i].0 && value_eq(x[i].1, y[i].1),
        (ValueV::Vector(x), ValueV::Vector(y)) => x.len() == y.len() && forall|i: int|
            0 <= i < x.len() ==> float::float_eq_32(#[trigger] x[i], y[i]),
        (ValueV::Float(_), _) => false,
        (ValueV::List(_), _) => false,
        (ValueV::Object(_), _) => false,
        (ValueV::Vector(_), _) => false,
        _ => a == b,
    }
}

fn value_lists_equal(a: &Vec<Value>, b: &Vec<Value>) -> (r: bool)
    ensures
        r == value_eq(ValueV::List(values_view(a@)), ValueV::List(values_view(b@))),
    decreases a,
{
    if a.len() != b.len() {
        return false;
    }
    let mut i: usize = 0;
    while i < a.len()
        invariant
            i <= a@.len(),
            a@.len() == b@.len(),
            forall|j: int|
                0 <= j < i ==> value_eq(#[trigger] values_view(a@)[j], values_view(b@)[j]),
        decreases a@.len() - i,
    {
        if !values_equal(&a[i], &b[i]) {
            assert(!value_eq(values_view(a@)[i as int], values_view(b@)[i as int]));
            return false;
        }
        i = i + 1;
    }
    true
}

fn value_pairs_equal(a: &Vec<(String, Value)>, b: &Vec<(String, Value)>) -> (r: bool)
    ensures
        r == value_eq(ValueV::Object(pairs_view(a@)), ValueV::Object(pairs_view(b@))),
    decreases a,
{
    if a.len() != b.len() {
        return false;
    }
    let mut i: usize = 0;
    while i < a.len()
        invariant
            i <= a@.len(),
            a@.len() == b@.len(),
            forall|j: int|
                0 <= j < i ==> (#[trigger] pairs_view(a@)[j]).0 == pairs_view(b@)[j].0 && value_eq(
                    pairs_view(a@)[j].1,
                    pairs_view(b@)[j].1,
                ),
        decreases a@.len() - i,
    {
        if !bytes::str_equal(a[i].0.as_str(), b[i].0.as_str()) || !values_equal(&a[i].1, &b[i].1) {
            assert(pairs_view(a@)[i as int].0 != pairs_view(b@)[i as int].0 || !value_eq(
                pairs_view(a@)[i as int].1,
                pairs_view(b@)[i as int].1,
            ));
            return false;
        }
        i = i + 1;
    }
    true
}

fn vectors_equal(a: &Vec<u32>, b: &Vec<u32>) -> (r: bool)
    ensures
        r == value_eq(ValueV::Vector(a@), ValueV::Vector(b@)),
{
    if a.len() != b.len() {
        return false;
    }
    let mut i: usize = 0;
    while i < a.len()
        invariant
            i <= a@.len(),
            a@.len() == b@.len(),
            forall|j: int| 0 <= j < i ==> float::float_eq_32(#[trigger] a@[j], b@[j]),
        decreases a@.len() - i,
    {
        if !float::equal_32(a[i], b[i]) {
            return false;
        }
        i = i + 1;
    }
    true
}

/// Whether two values are equal.
pub fn values_equal(a: &Value, b: &Value) -> (r: bool)
    ensures
        r == value_eq(a@, b@),
    decreases a,
{
    match (a, b) {
        (Value::Null, Value::Null) => true,
        (Value::Bool(x), Value::Bool(y)) => *x == *y,
        (Value::Int(x), Value::Int(y)) => *x == *y,
        (Value::Float(x), Value::Float(y)) => float::equal(*x, *y),
        (Value::Text(x), Value::Text(y)) => bytes::str_equal(x.as_str(), y.as_str()),
        (Value::Timestamp(x), Value::Timestamp(y)) => *x == *y,
        (Value::Bytes(x), Value::Bytes(y)) => bytes::bytes_equal(x.as_slice(), y.as_slice()),
        (Value::List(x), Value::List(y)) => value_lists_equal(x, y),
        (Value::Object(x), Value::Object(y)) => value_pairs_equal(x, y),
        (Value::Vector(x), Value::Vector(y)) => vectors_equal(x, y),
        _ => false,
    }
}

// ---------------------------------------------------------------------------
// Numbers and order
// ---------------------------------------------------------------------------
/// The double of a numeric value.
pub open spec fn number(v: ValueV) -> Option<u64> {
    match v {
        ValueV::Int(n) => Some(float::int_double(n)),
        ValueV::Float(f) => Some(f),
        _ => None,
    }
}

/// The double of a numeric value: an integer is rounded to the nearest one.
pub fn numeric_value(v: &Value) -> (r: Option<u64>)
    ensures
        r == number(v@),
{
    match v {
        Value::Int(n) => Some(float::int_to_double(*n)),
        Value::Float(f) => Some(*f),
        _ => None,
    }
}

/// `a` sorts strictly before `b` under an ORDER BY. Nulls come last; an
/// integer and a double compare as doubles; values of other different kinds,
/// and doubles that are not numbers, are not ordered.
pub open spec fn sorts_before(a: ValueV, b: ValueV) -> bool {
    match (a, b) {
        (ValueV::Null, _) => false,
        (_, ValueV::Null) => true,
        (ValueV::Int(x), ValueV::Int(y)) => x < y,
        (ValueV::Float(x), ValueV::Float(y)) => float::float_lt(x, y),
        (ValueV::Int(x), ValueV::Float(y)) => float::float_lt(float::int_double(x), y),
        (ValueV::Float(x), ValueV::Int(y)) => float::float_lt(x, float::int_double(y)),
        (ValueV::Text(x), ValueV::Text(y)) => bytes::str_lt(x, y),
        (ValueV::Timestamp(x), ValueV::Timestamp(y)) => x < y,
        (ValueV::Bool(x), ValueV::Bool(y)) => !x && y,
        _ => false,
    }
}

/// `a` sorts strictly before `b`; an absent value comes first.
pub open spec fn opt_sorts_before(a: Option<ValueV>, b: Option<ValueV>) -> bool {
    match (a, b) {
        (None, Some(_)) => true,
        (Some(x), Some(y)) => sorts_before(x, y),
        _ => false,
    }
}

/// The view of an optional value.
pub open spec fn opt_view(v: Option<Value>) -> Option<ValueV> {
    match v {
        Some(x) => Some(x@),
        None => None,
    }
}

/// How two values compare under an ORDER BY.
#[derive(Clone, Copy, Debug, PartialEq, Eq, Structural)]
pub enum Compared {
    Before,
    Same,
    After,
}

/// What [`compare_value_inner`] returns.
pub open spec fn compared(a: ValueV, b: ValueV) -> Compared {
    if sorts_before(a, b) {
        Compared::Before
    } else if sorts_before(b, a) {
        Compared::After
    } else {
        Compared::Same
    }
}

fn order_doubles(x: u64, y: u64) -> (r: Compared)
    ensures
        r == (if float::float_lt(x, y) {
            Compared::Before
        } else if float::float_lt(y, x) {
            Compared::After
        } else {
            Compared::Same
        }),
{
    if float::less(x, y) {
        Compared::Before
    } else if float::less(y, x) {
        Compared::After
    } else {
        Compared::Same
    }
}

fn order_ints(x: i64, y: i64) -> (r: Compared)
    ensures
        r == (if x < y {
            Compared::Before
        } else if y < x {
            Compared::After
        } else {
            Compared::Same
        }),
{
    if x < y {
        Compared::Before
    } else if y < x {
        Compared::After
    } else {
        Compared::Same
    }
}

/// How two values compare under an ORDER BY: nulls last, kinds that have no
/// common order the same.
pub fn compare_value_inner(a: &Value, b: &Value) -> (r: Compared)
    ensures
        r == compared(a@, b@),
{
    match (a, b) {
        (Value::Null, Value::Null) => Compared::Same,
        (Value::Null, _) => Compared::After,
        (_, Value::Null) => Compared::Before,
        (Value::Int(x), Value::Int(y)) => order_ints(*x, *y),
        (Value::Float(x), Value::Float(y)) => order_doubles(*x, *y),
        (Value::Int(x), Value::Float(y)) => order_doubles(float::int_to_double(*x), *y),
        (Value::Float(x), Value::Int(y)) => order_doubles(*x, float::int_to_double(*y)),
        (Value::Text(x), Value::Text(y)) => {
            if bytes::str_less(x.as_str(), y.as_str()) {
                Compared::Before
            } else if bytes::str_less(y.as_str(), x.as_str()) {
                Compared::After
            } else {
                Compared::Same
            }
        },
        (Value::Timestamp(x), Value::Timestamp(y)) => order_ints(*x, *y),
        (Value::Bool(x), Value::Bool(y)) => {
            if !*x && *y {
                Compared::Before
            } else if *x && !*y {
                Compared::After
            } else {
                Compared::Same
            }
        },
        _ => Compared::Same,
    }
}

/// How two sort values compare; an absent one comes first.
pub fn compare_values(a: &Option<Value>, b: &Option<Value>) -> (r: Compared)
    ensures
        r == (if opt_sorts_before(opt_view(*a), opt_view(*b)) {
            Compared::Before
        } else if opt_sorts_before(opt_view(*b), opt_view(*a)) {
            Compared::After
        } else {
            Compared::Same
        }),
{
    match (a, b) {
        (None, None) => Compared::Same,
        (None, Some(_)) => Compared::Before,
        (Some(_), None) => Compared::After,
        (Some(x), Some(y)) => compare_value_inner(x, y),
    }
}

/// Values of different kinds are not equal. Nulls, booleans, integers, texts, timestamps
/// and byte strings are equal where they are the same, and numbers where they are the
/// same number, which nothing that is not a number is.
pub proof fn law_equal_values_are_the_same(a: ValueV, b: ValueV)
    ensures
        value_eq(a, b) ==> {
            &&& a is Null <==> b is Null
            &&& a is Bool <==> b is Bool
            &&& a is Int <==> b is Int
            &&& a is Float <==> b is Float
            &&& a is Text <==> b is Text
            &&& a is Timestamp <==> b is Timestamp
            &&& a is Bytes <==> b is Bytes
            &&& a is List <==> b is List
            &&& a is Object <==> b is Object
            &&& a is Vector <==> b is Vector
        },
        a is Null || a is Bool || a is Int || a is Text || a is Timestamp || a is Bytes ==> (
        value_eq(a, b) <==> a == b),
        a is Float && b is Float && float::is_finite(a->Float_0) && float::is_finite(b->Float_0)
            ==> (value_eq(a, b) <==> float::units(a->Float_0) == float::units(b->Float_0)),
        a is Float && float::is_nan(a->Float_0) ==> !value_eq(a, b),
{
    match (a, b) {
        (ValueV::Float(x), ValueV::Float(y)) => {
            float::law_doubles_compare_as_numbers(x, y);
            float::law_doubles_compare_as_numbers(y, x);
        },
        _ => {},
    }
}

/// Lists, and vectors, are equal where they are equal element by element, and objects
/// where their members have the same names and equal values in the same order.
pub proof fn law_compounds_are_equal_part_by_part(a: ValueV, b: ValueV)
    ensures
        a is List && b is List ==> (value_eq(a, b) <==> a->List_0.len() == b->List_0.len()
            && forall|i: int|
            0 <= i < a->List_0.len() ==> value_eq(#[trigger] a->List_0[i], b->List_0[i])),
        a is Object && b is Object ==> (value_eq(a, b) <==> a->Object_0.len() == b->Object_0.len()
            && forall|i: int|
            0 <= i < a->Object_0.len() ==> (#[trigger] a->Object_0[i]).0 == b->Object_0[i].0
                && value_eq(a->Object_0[i].1, b->Object_0[i].1)),
        a is Vector && b is Vector ==> (value_eq(a, b) <==> a->Vector_0.len() == b->Vector_0.len()
            && forall|i: int|
            0 <= i < a->Vector_0.len() ==> float::float_eq_32(
                #[trigger] a->Vector_0[i],
                b->Vector_0[i],
            )),
{
}

/// What a value stands for is what it holds, with its kind.
pub proof fn law_value_stands_for_what_it_holds(v: Value)
    ensures
        match v {
            Value::Null => v@ == ValueV::Null,
            Value::Bool(b) => v@ == ValueV::Bool(b),
            Value::Int(n) => v@ == ValueV::Int(n),
            Value::Float(x) => v@ == ValueV::Float(x),
            Value::Text(s) => v@ == ValueV::Text(s@),
            Value::Timestamp(t) => v@ == ValueV::Timestamp(t),
            Value::Bytes(b) => v@ == ValueV::Bytes(b@),
            Value::Vector(x) => v@ == ValueV::Vector(x@),
            Value::List(items) => v@ is List && v@->List_0.len() == items@.len() && forall|i: int|
                0 <= i < items@.len() ==> #[trigger] v@->List_0[i] == items@[i]@,
            Value::Object(members) => v@ is Object && v@->Object_0.len() == members@.len()
                && forall|i: int|
                0 <= i < members@.len() ==> #[trigger] v@->Object_0[i] == (
                    members@[i].0@,
                    members@[i].1@,
                ),
        },
{
}

} // verus!
