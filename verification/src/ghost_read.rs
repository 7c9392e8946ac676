//! Reading ghosts: the window of a scan over the entries, precomputed
//! aggregates, and the best groups by a metric.

use crate::aggregate_state;
use crate::aggregate_state::{AggregateState, AggregateStateV, Metric, Summaries};
use crate::ast::FilterExpr;
use crate::bytes;
use crate::filter;
use crate::ghost_keys;
use crate::ghost_meta::{GhostMeta, GhostMetaV, Residency, ResidencyV};
use crate::ghost_ops::GhostOps;
use crate::layout::SPATIAL_KEY_SIZE;
use crate::metric_order::RowOps;
use crate::record;
use crate::record::{Fields, FilterOp, Record, RecordV};
use crate::selection;
use crate::sorted_map::SortedMap;
use crate::text;
use crate::value::{Value, ValueV};
use vstd::prelude::*;

verus! {




/// The part of a ghost's entries that a scan reads.
pub enum ScanWindow {
    /// The entries that begin so.
    Prefix(Vec<u8>),
    /// The entries from the first key on, up to and without the second, or to
    /// the end.
    Range(Vec<u8>, Option<Vec<u8>>),
}

/// What a [`ScanWindow`] is.
pub enum ScanWindowV {
    Prefix(Seq<u8>),
    Range(Seq<u8>, Option<Seq<u8>>),
}

impl View for ScanWindow {
    type V = ScanWindowV;

    open spec fn view(&self) -> ScanWindowV {
        match self {
            ScanWindow::Prefix(p) => ScanWindowV::Prefix(p@),
            ScanWindow::Range(s, e) => ScanWindowV::Range(
                s@,
                match e {
                    Some(x) => Some(x@),
                    None => None,
                },
            ),
        }
    }
}

/// The key lies in the window.
pub open spec fn in_window(w: ScanWindowV, key: Seq<u8>) -> bool {
    match w {
        ScanWindowV::Prefix(p) => bytes::starts_with(key, p),
        ScanWindowV::Range(s, e) => bytes::lex_le(s, key) && match e {
            Some(x) => bytes::lex_lt(key, x),
            None => true,
        },
    }
}

/// What a query says of the field that orders a ghost: the last equality, the
/// last lower bound and the last upper bound.
pub struct Bounds {
    pub eq: Option<ValueV>,
    pub lo: Option<ValueV>,
    pub hi: Option<ValueV>,
}

/// What the predicates say of a field.
pub open spec fn bounds_of(
    filters: Seq<(Seq<char>, FilterOp, ValueV)>,
    field: Seq<char>,
) -> Bounds
    decreases filters.len(),
{
    if filters.len() == 0 {
        Bounds { eq: None, lo: None, hi: None }
    } else {
        let b = bounds_of(filters.drop_last(), field);
        let f = filters.last();
        if f.0 != field {
            b
        } else {
            match f.1 {
                FilterOp::Eq => Bounds { eq: Some(f.2), ..b },
                FilterOp::Gt => Bounds { lo: Some(f.2), ..b },
                FilterOp::Gte => Bounds { lo: Some(f.2), ..b },
                FilterOp::Lt => Bounds { hi: Some(f.2), ..b },
                FilterOp::Lte => Bounds { hi: Some(f.2), ..b },
                _ => b,
            }
        }
    }
}

/// `e` is the end of a range that takes in all keys beginning with `p`.
pub open spec fn ends_prefix(e: Option<Seq<u8>>, p: Seq<u8>) -> bool {
    match e {
        Some(x) => ghost_keys::bounds_prefix(p, x),
        None => ghost_keys::unbounded_prefix(p),
    }
}

impl<
    K: Fn(&Fields, &[String]) -> String,
    T: Fn(u16, Option<&Value>, bool, &[u8]) -> Vec<u8>,
    P: Fn(&Value) -> Option<Vec<u8>>,
    U: Fn(&[u8]) -> Option<Value>,
    A: Fn(&AggregateState, &Record, &Vec<Metric>) -> AggregateState,
    S: Fn(&AggregateState, &Record, &Vec<Metric>) -> AggregateState,
> GhostOps<K, T, P, U, A, S> {
    /// What all entries with a sort value begin with.
    pub open spec fn value_prefix(&self, g: GhostMetaV, v: ValueV) -> Seq<u8> {
        self.sort_key_of(g.ghost_id, Some(v), g.sort_inverted, Seq::empty())
    }

    /// What the bounds of a query mean for the window: an equality reads the
    /// entries of one value; a lower and an upper bound read a range, whose
    /// sides change places where the order is inverted; an open side is that of
    /// the ghost's entries; and without any bound all entries are read.
    pub open spec fn is_window(&self, g: GhostMetaV, b: Bounds, w: ScanWindowV) -> bool {
        let (first, last) = if g.sort_inverted {
            (b.hi, b.lo)
        } else {
            (b.lo, b.hi)
        };
        match b.eq {
            Some(v) => w == ScanWindowV::Prefix(self.value_prefix(g, v)),
            None => if b.lo is None && b.hi is None {
                w == ScanWindowV::Prefix(bytes::be16(g.ghost_id))
            } else {
                w matches ScanWindowV::Range(s, e) && s == match first {
                    Some(v) => self.value_prefix(g, v),
                    None => bytes::be16(g.ghost_id),
                } && ends_prefix(
                    e,
                    match last {
                        Some(v) => self.value_prefix(g, v),
                        None => bytes::be16(g.ghost_id),
                    },
                )
            },
        }
    }

    /// The bounds that count for a ghost: none where it has groups.
    pub open spec fn query_bounds(
        &self,
        g: GhostMetaV,
        filters: Seq<(Seq<char>, FilterOp, ValueV)>,
    ) -> Bounds {
        if g.group_fields().len() > 0 {
            Bounds { eq: None, lo: None, hi: None }
        } else {
            bounds_of(filters, g.order_by_field)
        }
    }

    /// The part of the ghost's entries that a query reads.
    pub fn seek_window(&self, meta: &GhostMeta, filters: &[(String, FilterOp, Value)]) -> (r:
        ScanWindow)
        requires
            self.sound(),
            meta.wf(),
        ensures
            self.is_window(
                meta@,
                self.query_bounds(meta@, record::predicates_view(filters@)),
                r@,
            ),
    {
        let ghost fv = record::predicates_view(filters@);
        let mut eq_val: Option<&Value> = None;
        let mut lo_val: Option<&Value> = None;
        let mut hi_val: Option<&Value> = None;
        if !meta.is_grouped() {
            let mut i: usize = 0;
            assert(fv.take(0) =~= Seq::<(Seq<char>, FilterOp, ValueV)>::empty());
            while i < filters.len()
                invariant
                    i <= filters@.len(),
                    fv == record::predicates_view(filters@),
                    bounds_of(fv.take(i as int), meta@.order_by_field) == (Bounds {
                        eq: crate::ghost_ops::opt_ref(eq_val),
                        lo: crate::ghost_ops::opt_ref(lo_val),
                        hi: crate::ghost_ops::opt_ref(hi_val),
                    }),
                decreases filters@.len() - i,
            {
                let f = &filters[i];
                assert(fv[i as int] == record::predicate_view(*f));
                assert(fv.take(i + 1).drop_last() =~= fv.take(i as int));
                assert(fv.take(i + 1).last() == fv[i as int]);
                if bytes::str_equal(f.0.as_str(), meta.order_by_field.as_str()) {
                    match f.1 {
                        FilterOp::Eq => {
                            eq_val = Some(&f.2);
                        },
                        FilterOp::Gt | FilterOp::Gte => {
                            lo_val = Some(&f.2);
                        },
                        FilterOp::Lt | FilterOp::Lte => {
                            hi_val = Some(&f.2);
                        },
                        _ => {},
                    }
                }
                i = i + 1;
            }
            assert(fv.take(i as int) =~= fv);
        }
        let gid: u16 = meta.ghost_id;
        let inv = meta.sort_inverted;
        let none: Vec<u8> = Vec::new();
        assert(none@ =~= Seq::<u8>::empty());
        match eq_val {
            Some(v) => ScanWindow::Prefix(self.encode_sort_key(gid, Some(v), inv, none.as_slice())),
            None => {
                let mut whole: Vec<u8> = Vec::new();
                bytes::push_be16(&mut whole, gid);
                assert(whole@ =~= bytes::be16(gid));
                if lo_val.is_none() && hi_val.is_none() {
                    return ScanWindow::Prefix(whole);
                }
                let (first, last) = if inv {
                    (hi_val, lo_val)
                } else {
                    (lo_val, hi_val)
                };
                let end = match last {
                    Some(v) => {
                        let p = self.encode_sort_key(gid, Some(v), inv, none.as_slice());
                        ghost_keys::byte_successor(p.as_slice())
                    },
                    None => ghost_keys::byte_successor(whole.as_slice()),
                };
                let start = match first {
                    Some(v) => self.encode_sort_key(gid, Some(v), inv, none.as_slice()),
                    None => whole,
                };
                ScanWindow::Range(start, end)
            },
        }
    }

    /// The keys of a ghost's entries keep the order of their sort values: the
    /// keys of one value begin with its prefix, all begin with the ghost's
    /// number, and the prefixes of two values are neither equal nor does one
    /// begin the other, and lie in the order of the values or, where the order
    /// is inverted, in the opposite one. `before` is the order of values.
    pub open spec fn keeps_order(
        &self,
        g: GhostMetaV,
        before: spec_fn(ValueV, ValueV) -> bool,
    ) -> bool {
        &&& forall|v: ValueV, t: Seq<u8>|
            bytes::starts_with(
                #[trigger] self.sort_key_of(g.ghost_id, Some(v), g.sort_inverted, t),
                self.value_prefix(g, v),
            )
        &&& forall|v: ValueV|
            bytes::starts_with(#[trigger] self.value_prefix(g, v), bytes::be16(g.ghost_id))
        &&& forall|v: ValueV, w: ValueV| #[trigger]
            before(v, w) ==> {
                let a = self.value_prefix(g, v);
                let b = self.value_prefix(g, w);
                &&& !bytes::starts_with(a, b)
                &&& !bytes::starts_with(b, a)
                &&& if g.sort_inverted {
                    bytes::lex_lt(b, a)
                } else {
                    bytes::lex_lt(a, b)
                }
            }
    }

    /// A window takes in every entry that the query may select: one whose sort
    /// value is the one asked for, or lies between the bounds.
    pub proof fn law_window_takes_in_selected(
        &self,
        g: GhostMetaV,
        b: Bounds,
        w: ScanWindowV,
        before: spec_fn(ValueV, ValueV) -> bool,
        v: ValueV,
        tiebreak: Seq<u8>,
    )
        requires
            self.is_window(g, b, w),
            self.keeps_order(g, before),
            b.eq matches Some(x) ==> v == x,
            b.lo matches Some(x) ==> v == x || before(x, v),
            b.hi matches Some(x) ==> v == x || before(v, x),
        ensures
            in_window(w, self.sort_key_of(g.ghost_id, Some(v), g.sort_inverted, tiebreak)),
    {
        let key = self.sort_key_of(g.ghost_id, Some(v), g.sort_inverted, tiebreak);
        let pv = self.value_prefix(g, v);
        let id = bytes::be16(g.ghost_id);
        assert(bytes::starts_with(key, pv));
        assert(bytes::starts_with(pv, id));
        assert(bytes::starts_with(key, id)) by {
            assert(key.take(id.len() as int) =~= pv.take(id.len() as int)) by {
                assert(key.take(pv.len() as int) == pv);
                assert forall|i: int| 0 <= i < id.len() implies key[i] == pv[i] by {
                    assert(key.take(pv.len() as int)[i] == key[i]);
                }
            }
        }
        if b.eq is None && (b.lo is Some || b.hi is Some) {
            let (first, last) = if g.sort_inverted {
                (b.hi, b.lo)
            } else {
                (b.lo, b.hi)
            };
            let start = match first {
                Some(x) => self.value_prefix(g, x),
                None => id,
            };
            let stop = match last {
                Some(x) => self.value_prefix(g, x),
                None => id,
            };
            if let Some(x) = first {
                if x == v {
                    lemma_begins_le(key, start);
                } else {
                    lemma_apart_extends(start, pv, start, key);
                }
            } else {
                lemma_begins_le(key, start);
            }
            let e = w->Range_1;
            if let Some(x) = last {
                if x != v {
                    assert(bytes::lex_lt(pv, stop));
                    lemma_apart_extends(pv, stop, key, stop);
                    assert(bytes::lex_lt(key, stop));
                    if let Some(end) = e {
                        lemma_begins_self(stop);
                        assert(bytes::starts_with(stop, stop));
                        assert(bytes::lex_lt(stop, end));
                        bytes::lemma_lex_transitive(key, stop, end);
                    }
                } else {
                    assert(bytes::starts_with(key, stop));
                }
            } else {
                assert(bytes::starts_with(key, stop));
            }
        }
    }
}

proof fn lemma_begins_self(s: Seq<u8>)
    ensures
        bytes::starts_with(s, s),
{
    assert(s.take(s.len() as int) =~= s);
}

proof fn lemma_begins_le(s: Seq<u8>, p: Seq<u8>)
    requires
        bytes::starts_with(s, p),
    ensures
        bytes::lex_le(p, s),
{
    assert forall|j: int| 0 <= j < p.len() implies p[j] == s[j] by {
        assert(s.take(p.len() as int)[j] == s[j]);
    }
    if p.len() == s.len() {
        assert(p =~= s);
    } else {
        assert(bytes::lex_split(p, s, p.len() as int));
    }
}

/// Where neither of two strings begins the other, what they begin lies as they
/// do.
proof fn lemma_apart_extends(a: Seq<u8>, b: Seq<u8>, x: Seq<u8>, y: Seq<u8>)
    requires
        bytes::lex_lt(a, b),
        !bytes::starts_with(b, a),
        x == a || bytes::starts_with(x, a),
        y == b || bytes::starts_with(y, b),
    ensures
        bytes::lex_lt(x, y),
{
    let i = choose|i: int| bytes::lex_split(a, b, i);
    if i == a.len() {
        assert(b.take(a.len() as int) =~= a);
    }
    assert(i < a.len() && a[i] < b[i]);
    assert forall|j: int| 0 <= j <= i implies x[j] == a[j] && y[j] == b[j] by {
        if x != a {
            assert(x.take(a.len() as int)[j] == x[j]);
        }
        if y != b {
            assert(y.take(b.len() as int)[j] == y[j]);
        }
    }
    assert(x.len() > i) by {
        if x != a {
            assert(x.len() >= a.len());
        }
    }
    assert(y.len() > i) by {
        if y != b {
            assert(y.len() >= b.len());
        }
    }
    assert(bytes::lex_split(x, y, i));
}

/// The spatial key that an entry refers to, if it is whole.
pub open spec fn referred(entry: Seq<u8>) -> Option<Seq<u8>> {
    if entry.len() >= SPATIAL_KEY_SIZE {
        Some(entry.take(SPATIAL_KEY_SIZE as int))
    } else {
        None
    }
}

/// The spatial key that an entry refers to; a truncated one refers to none.
pub fn entry_reference(entry: &[u8]) -> (r: Option<Vec<u8>>)
    ensures
        crate::ghost_ops::opt_bytes(r) == referred(entry@),
{
    if entry.len() < SPATIAL_KEY_SIZE {
        return None;
    }
    let k = bytes::sub_bytes(entry, 0, SPATIAL_KEY_SIZE);
    assert(k@ =~= entry@.take(SPATIAL_KEY_SIZE as int));
    Some(k)
}

/// Collects the first records that are offered, up to a number.
pub struct TopRecords {
    limit: usize,
    rows: Vec<Record>,
}

/// What records stand for.
pub open spec fn records_view(s: Seq<Record>) -> Seq<RecordV> {
    s.map_values(|r: Record| r@)
}

impl TopRecords {
    /// The records so far.
    pub closed spec fn taken(&self) -> Seq<RecordV> {
        records_view(self.rows@)
    }

    /// How many are wanted.
    pub closed spec fn wanted(&self) -> usize {
        self.limit
    }

    /// No record yet.
    pub fn new(limit: usize) -> (r: Self)
        ensures
            r.taken() == Seq::<RecordV>::empty(),
            r.wanted() == limit,
    {
        let r = TopRecords { limit, rows: Vec::new() };
        assert(r.taken() =~= Seq::<RecordV>::empty());
        r
    }

    /// Whether more records are wanted.
    pub fn wants_more(&self) -> (r: bool)
        ensures
            r == (self.taken().len() < self.wanted()),
    {
        self.rows.len() < self.limit
    }

    /// Takes the record of an entry, if the entry gave one and it was accepted, as
    /// long as more are wanted.
    pub fn offer(&mut self, candidate: Option<Record>, accepted: bool)
        ensures
            final(self).wanted() == old(self).wanted(),
            final(self).taken() == match candidate {
                Some(r) => if old(self).taken().len() < old(self).wanted() && accepted {
                    old(self).taken().push(r@)
                } else {
                    old(self).taken()
                },
                None => old(self).taken(),
            },
    {
        if let Some(r) = candidate {
            if self.rows.len() < self.limit && accepted {
                let ghost before = self.rows@;
                let ghost rv = r@;
                self.rows.push(r);
                assert(records_view(self.rows@) =~= records_view(before).push(rv));
            }
        }
    }

    /// Takes the record of an entry, if the entry gave one and it passes the
    /// condition, as long as more are wanted. Where the record holds embedded
    /// fields that do not answer the condition, `whole` is the record to test in
    /// its place.
    pub fn offer_if<T: Fn(&Record, &(String, FilterOp, Value)) -> bool>(
        &mut self,
        candidate: Option<Record>,
        whole: Option<Record>,
        filter: &Option<FilterExpr>,
        test: &T,
    )
        requires
            selection::tests(*test),
            selection::bound(filter::opt_expr_view(*filter)),
        ensures
            final(self).wanted() == old(self).wanted(),
            final(self).taken() == match candidate {
                Some(r) => if old(self).taken().len() < old(self).wanted() && selection::passes(
                    *test,
                    filter::opt_expr_view(*filter),
                    match whole {
                        Some(w) => w@,
                        None => r@,
                    },
                ) {
                    old(self).taken().push(r@)
                } else {
                    old(self).taken()
                },
                None => old(self).taken(),
            },
    {
        if let Some(r) = candidate {
            let accepted = match &whole {
                Some(w) => selection::record_passes(test, filter, w),
                None => selection::record_passes(test, filter, &r),
            };
            self.offer(Some(r), accepted);
        }
    }

    /// The records.
    pub fn into_records(self) -> (r: Vec<Record>)
        ensures
            records_view(r@) == self.taken(),
    {
        self.rows
    }
}

/// Precomputed aggregates.
pub enum GhostAggregates {
    /// Over all members.
    Global(AggregateState),
    /// For each group.
    Grouped(Summaries),
}

/// What [`GhostAggregates`] stand for.
pub enum GhostAggregatesV {
    Global(AggregateStateV),
    Grouped(Map<Seq<char>, AggregateStateV>),
}

impl View for GhostAggregates {
    type V = GhostAggregatesV;

    open spec fn view(&self) -> GhostAggregatesV {
        match self {
            GhostAggregates::Global(s) => GhostAggregatesV::Global(s@),
            GhostAggregates::Grouped(m) => GhostAggregatesV::Grouped(
                aggregate_state::summaries_view(m@),
            ),
        }
    }
}

/// What answers a query for precomputed aggregates.
pub enum Precomputed {
    /// The aggregates in memory.
    Ready(GhostAggregates),
    /// The rollups under a prefix, of which those are wanted whose group keys
    /// have the expected texts.
    Rollups { prefix: Vec<u8>, expected: Vec<Option<String>> },
}

/// What optional texts say.
pub open spec fn opt_names(s: Seq<Option<String>>) -> Seq<Option<Seq<char>>> {
    s.map_values(|o: Option<String>| ghost_keys::opt_text(o))
}

/// The texts pin every group field.
pub open spec fn all_pinned(e: Seq<Option<Seq<char>>>) -> bool {
    forall|i: int| 0 <= i < e.len() ==> (#[trigger] e[i]) is Some
}

/// The texts pin no group field.
pub open spec fn none_pinned(e: Seq<Option<Seq<char>>>) -> bool {
    forall|i: int| 0 <= i < e.len() ==> (#[trigger] e[i]) is None
}

/// The pinned texts.
pub open spec fn pinned_texts(e: Seq<Option<Seq<char>>>) -> Seq<Seq<char>> {
    e.map_values(
        |o: Option<Seq<char>>|
            match o {
                Some(t) => t,
                None => Seq::empty(),
            },
    )
}

/// The texts of a group key are the expected ones, where they are pinned.
pub open spec fn parts_match(e: Seq<Option<Seq<char>>>, parts: Seq<Seq<char>>) -> bool {
    forall|i: int|
        0 <= i < e.len() ==> (#[trigger] e[i] matches Some(t) ==> i < parts.len() && parts[i] == t)
}

/// The first equality on a field, at `i`.
pub open spec fn first_equality(
    filters: Seq<(Seq<char>, FilterOp, ValueV)>,
    field: Seq<char>,
    i: int,
) -> bool {
    &&& 0 <= i < filters.len()
    &&& filters[i].0 == field
    &&& filters[i].1 == FilterOp::Eq
    &&& forall|j: int|
        0 <= j < i ==> !((#[trigger] filters[j]).0 == field && filters[j].1 == FilterOp::Eq)
}

proof fn lemma_first_equality(
    filters: Seq<(Seq<char>, FilterOp, ValueV)>,
    field: Seq<char>,
    i: int,
)
    requires
        0 <= i < filters.len(),
        filters[i].0 == field,
        filters[i].1 == FilterOp::Eq,
    ensures
        exists|k: int| first_equality(filters, field, k),
    decreases i,
{
    if exists|j: int| 0 <= j < i && (#[trigger] filters[j]).0 == field && filters[j].1
        == FilterOp::Eq {
        let j = choose|j: int| 0 <= j < i && (#[trigger] filters[j]).0 == field && filters[j].1
            == FilterOp::Eq;
        lemma_first_equality(filters, field, j);
    } else {
        assert(first_equality(filters, field, i));
    }
}

/// Whether the expected texts fit a group key's texts.
pub fn do_parts_match(expected: &Vec<Option<String>>, parts: &Vec<String>) -> (r: bool)
    ensures
        r == parts_match(opt_names(expected@), text::names(parts@)),
{
    let ghost e = opt_names(expected@);
    let ghost p = text::names(parts@);
    let mut i: usize = 0;
    while i < expected.len()
        invariant
            i <= expected@.len(),
            e == opt_names(expected@),
            p == text::names(parts@),
            forall|j: int|
                0 <= j < i ==> (#[trigger] e[j] matches Some(t) ==> j < p.len() && p[j] == t),
        decreases expected@.len() - i,
    {
        assert(e[i as int] == ghost_keys::opt_text(expected@[i as int]));
        match &expected[i] {
            Some(t) => {
                if i >= parts.len() || !bytes::str_equal(parts[i].as_str(), t.as_str()) {
                    proof {
                        if i < parts@.len() {
                            assert(p[i as int] == parts@[i as int]@);
                        }
                    }
                    return false;
                }
                assert(p[i as int] == parts@[i as int]@);
            },
            None => {},
        }
        i = i + 1;
    }
    true
}

impl<
    FT: Fn(&Value) -> String,
    EK: Fn(&Vec<String>) -> String,
    PT: Fn(&str) -> Vec<String>,
    FV: Fn(&str) -> Value,
    RS: Fn(&AggregateState) -> Vec<(String, Value)>,
    SH: Fn(&Value) -> String,
    EN: Fn(&AggregateState) -> Vec<u8>,
    DE: Fn(&[u8]) -> Option<AggregateState>,
> RowOps<FT, EK, PT, FV, RS, SH, EN, DE> {
    /// The text that the predicates pin a group field to.
    pub open spec fn expected_part(
        &self,
        filters: Seq<(Seq<char>, FilterOp, ValueV)>,
        field: Seq<char>,
    ) -> Option<Seq<char>> {
        if exists|i: int| first_equality(filters, field, i) {
            let i = choose|i: int| first_equality(filters, field, i);
            Some(self.fragment_of(filters[i].2))
        } else {
            None
        }
    }

    /// The texts that the predicates pin the group fields to.
    pub open spec fn expected_parts(
        &self,
        filters: Seq<(Seq<char>, FilterOp, ValueV)>,
        group_fields: Seq<Seq<char>>,
    ) -> Seq<Option<Seq<char>>> {
        Seq::new(group_fields.len(), |i: int| self.expected_part(filters, group_fields[i]))
    }

    /// The text that the predicates pin a group field to.
    fn expect_part(&self, filters: &[(String, FilterOp, Value)], field: &str) -> (r: Option<String>)
        requires
            self.sound(),
        ensures
            ghost_keys::opt_text(r) == self.expected_part(
                record::predicates_view(filters@),
                field@,
            ),
    {
        let ghost fv = record::predicates_view(filters@);
        let mut i: usize = 0;
        while i < filters.len()
            invariant
                i <= filters@.len(),
                self.sound(),
                fv == record::predicates_view(filters@),
                forall|j: int|
                    0 <= j < i ==> !((#[trigger] fv[j]).0 == field@ && fv[j].1 == FilterOp::Eq),
            decreases filters@.len() - i,
        {
            let f = &filters[i];
            assert(fv[i as int] == record::predicate_view(*f));
            if bytes::str_equal(f.0.as_str(), field) && f.1 == FilterOp::Eq {
                let t = self.make_fragment(&f.2);
                proof {
                    assert(first_equality(fv, field@, i as int));
                    let k = choose|k: int| first_equality(fv, field@, k);
                    if k < i {
                        assert(fv[k].0 == field@);
                    } else if i < k {
                        assert(fv[i as int].0 == field@);
                    }
                    assert(k == i as int);
                }
                return Some(t);
            }
            i = i + 1;
        }
        proof {
            if exists|k: int| first_equality(fv, field@, k) {
                let k = choose|k: int| first_equality(fv, field@, k);
                assert(fv[k].0 == field@);
            }
        }
        None
    }

    /// The texts that the predicates pin the group fields to.
    fn expect_parts(&self, filters: &[(String, FilterOp, Value)], group_fields: &[String]) -> (r:
        Vec<Option<String>>)
        requires
            self.sound(),
        ensures
            opt_names(r@) == self.expected_parts(
                record::predicates_view(filters@),
                text::names(group_fields@),
            ),
    {
        let ghost want = self.expected_parts(
            record::predicates_view(filters@),
            text::names(group_fields@),
        );
        let mut r: Vec<Option<String>> = Vec::new();
        let mut i: usize = 0;
        while i < group_fields.len()
            invariant
                i <= group_fields@.len(),
                r@.len() == i,
                self.sound(),
                want == self.expected_parts(
                    record::predicates_view(filters@),
                    text::names(group_fields@),
                ),
                forall|j: int| 0 <= j < i ==> ghost_keys::opt_text(#[trigger] r@[j]) == want[j],
            decreases group_fields@.len() - i,
        {
            let p = self.expect_part(filters, group_fields[i].as_str());
            assert(text::names(group_fields@)[i as int] == group_fields@[i as int]@);
            r.push(p);
            i = i + 1;
        }
        assert(opt_names(r@) =~= want);
        r
    }

    /// Two equalities pin one group field to different texts, which no group has.
    pub open spec fn pins_clash(
        &self,
        filters: Seq<(Seq<char>, FilterOp, ValueV)>,
        group_fields: Seq<Seq<char>>,
    ) -> bool {
        exists|i: int| #[trigger] self.pin_clashes(filters, group_fields, i)
    }

    /// The predicate at `i` pins a group field to another text than an earlier one.
    pub open spec fn pin_clashes(
        &self,
        filters: Seq<(Seq<char>, FilterOp, ValueV)>,
        group_fields: Seq<Seq<char>>,
        i: int,
    ) -> bool {
        &&& 0 <= i < filters.len()
        &&& filters[i].1 == FilterOp::Eq
        &&& group_fields.contains(filters[i].0)
        &&& self.expected_part(filters, filters[i].0) != Some(self.fragment_of(filters[i].2))
    }

    /// Whether two equalities pin one group field to different texts.
    fn do_pins_clash(&self, filters: &[(String, FilterOp, Value)], group_fields: &[String]) -> (r:
        bool)
        requires
            self.sound(),
        ensures
            r == self.pins_clash(record::predicates_view(filters@), text::names(group_fields@)),
    {
        let ghost fv = record::predicates_view(filters@);
        let ghost names = text::names(group_fields@);
        let mut i: usize = 0;
        while i < filters.len()
            invariant
                i <= filters@.len(),
                self.sound(),
                fv == record::predicates_view(filters@),
                names == text::names(group_fields@),
                forall|j: int| 0 <= j < i ==> !(#[trigger] self.pin_clashes(fv, names, j)),
            decreases filters@.len() - i,
        {
            let f = &filters[i];
            assert(fv[i as int] == record::predicate_view(*f));
            if f.1 == FilterOp::Eq && text::names_contain(group_fields, f.0.as_str()) {
                let t = self.make_fragment(&f.2);
                let agrees = match self.expect_part(filters, f.0.as_str()) {
                    Some(e) => bytes::str_equal(e.as_str(), t.as_str()),
                    None => false,
                };
                if !agrees {
                    assert(self.pin_clashes(fv, names, i as int));
                    return true;
                }
            }
            i = i + 1;
        }
        false
    }

    /// The groups whose keys have the expected texts: all of them where none is
    /// pinned, the one of that key where all are, and else those that match.
    pub open spec fn wanted_groups(
        &self,
        m: Map<Seq<char>, AggregateStateV>,
        e: Seq<Option<Seq<char>>>,
    ) -> Map<Seq<char>, AggregateStateV> {
        if none_pinned(e) {
            m
        } else if all_pinned(e) {
            m.restrict(set![self.joined(pinned_texts(e))])
        } else {
            m.restrict(Set::new(|k: Seq<char>| parts_match(e, self.split(k))))
        }
    }

    /// The prefix of the rollups that a query reads: that of one group where
    /// its key is pinned, and else that of the ghost.
    pub open spec fn rollup_prefix(&self, ghost_id: u16, e: Seq<Option<Seq<char>>>) -> Seq<u8> {
        if !none_pinned(e) && all_pinned(e) {
            ghost_keys::rollup_key_bytes(ghost_id, self.joined(pinned_texts(e)))
        } else {
            ghost_keys::prefixed(crate::reserved_keys::ROLLUP, ghost_id)
        }
    }

    /// What answers a query for a ghost's precomputed aggregates.
    pub open spec fn is_precomputed(
        &self,
        g: GhostMetaV,
        group_by: Seq<Seq<char>>,
        filters: Seq<(Seq<char>, FilterOp, ValueV)>,
        r: Precomputed,
    ) -> bool {
        match g.aggregate {
            None => r matches Precomputed::Ready(a) && a@ == GhostAggregatesV::Global(
                aggregate_state::no_records(),
            ),
            Some(a) => if group_by.len() > 0 && group_by == a.group_fields {
                let e = self.expected_parts(filters, a.group_fields);
                match a.residency {
                    _ if self.pins_clash(filters, a.group_fields) => r matches Precomputed::Ready(x)
                        && x@ == GhostAggregatesV::Grouped(Map::empty()),
                    ResidencyV::Spilled => r matches Precomputed::Rollups { prefix, expected }
                        && prefix@ == self.rollup_prefix(g.ghost_id, e) && opt_names(expected@)
                        == e,
                    ResidencyV::InRam(m) => r matches Precomputed::Ready(x) && x@
                        == GhostAggregatesV::Grouped(self.wanted_groups(m, e)),
                }
            } else {
                r matches Precomputed::Ready(x) && x@ == GhostAggregatesV::Global(a.global)
            },
        }
    }

    /// What answers a query for a ghost's precomputed aggregates: those of its
    /// groups, as far as all equalities on the group fields select them, where the
    /// query groups as the ghost does, and else the one over all members.
    pub fn read_precomputed(
        &self,
        meta: &GhostMeta,
        group_by: &[String],
        filters: &[(String, FilterOp, Value)],
    ) -> (r: Precomputed)
        requires
            self.sound(),
        ensures
            self.is_precomputed(
                meta@,
                text::names(group_by@),
                record::predicates_view(filters@),
                r,
            ),
    {
        let agg = match &meta.aggregate {
            Some(a) => a,
            None => {
                return Precomputed::Ready(GhostAggregates::Global(AggregateState::default()));
            },
        };
        if group_by.len() == 0 || !text::names_equal(group_by, agg.grouping.fields()) {
            return Precomputed::Ready(
                GhostAggregates::Global(agg.global_aggregates.clone_state()),
            );
        }
        if self.do_pins_clash(filters, agg.grouping.fields()) {
            let none: Summaries = SortedMap::new();
            assert(aggregate_state::summaries_view(none@) =~= Map::empty());
            return Precomputed::Ready(GhostAggregates::Grouped(none));
        }
        let expected = self.expect_parts(filters, agg.grouping.fields());
        let ghost e = opt_names(expected@);
        let (none, all) = pin_counts(&expected);
        match &agg.residency {
            Residency::Spilled => {
                let prefix = if !none && all {
                    let key = self.encode_group_key(&unwrap_parts(&expected));
                    ghost_keys::rollup_key(meta.ghost_id, key.as_str())
                } else {
                    ghost_keys::rollup_ghost_prefix(meta.ghost_id)
                };
                Precomputed::Rollups { prefix, expected }
            },
            Residency::InRam(m) => {
                let ghost mv = aggregate_state::summaries_view(m@);
                if none {
                    return Precomputed::Ready(
                        GhostAggregates::Grouped(aggregate_state::clone_summaries(m)),
                    );
                }
                if all {
                    let key = self.encode_group_key(&unwrap_parts(&expected));
                    let mut one: Summaries = SortedMap::new();
                    if let Some(s) = m.get(key.as_str()) {
                        let t = s.clone_state();
                        one.insert(key.clone(), t);
                    }
                    proof {
                        let got = aggregate_state::summaries_view(one@);
                        let want = mv.restrict(set![key@]);
                        assert(got =~= want);
                        assert(key@ == self.joined(pinned_texts(e)));
                    }
                    return Precomputed::Ready(GhostAggregates::Grouped(one));
                }
                let copy = aggregate_state::clone_summaries(m);
                let ghost cv = aggregate_state::summaries_view(copy@);
                let keep = |k: &str, _s: &AggregateState| -> (b: bool)
                    ensures
                        b == parts_match(opt_names(expected@), self.split(k@)),
                    {
                        let parts = self.decode_group_key(k);
                        do_parts_match(&expected, &parts)
                    };
                let ghost whole = copy@;
                let kept = copy.filter_with(&keep);
                proof {
                    let got = aggregate_state::summaries_view(kept@);
                    let want = mv.restrict(Set::new(|k: Seq<char>| parts_match(e, self.split(k))));
                    assert forall|k: Seq<char>|
                        #![trigger got.dom().contains(k)]
                        #![trigger want.dom().contains(k)]
                        got.dom().contains(k) == want.dom().contains(k) && (got.dom().contains(k)
                            ==> got[k] == want[k]) by {
                        assert(cv.dom().contains(k) == mv.dom().contains(k));
                        assert(whole.contains_key(k) == mv.contains_key(k));
                        if got.dom().contains(k) {
                            assert(kept@.contains_key(k));
                            assert(cv[k] == mv[k]);
                        } else if whole.contains_key(k) {
                            assert(!kept@.contains_key(k));
                        }
                    }
                    assert(got.dom() =~= want.dom());
                    assert(got =~= want);
                }
                Precomputed::Ready(GhostAggregates::Grouped(kept))
            },
        }
    }

    /// The group of a rollup's entry, if the query wants it: it is well formed,
    /// its key has the expected texts, and it has records.
    pub open spec fn wanted_rollup(
        &self,
        key: Seq<u8>,
        val: Seq<u8>,
        e: Seq<Option<Seq<char>>>,
    ) -> Option<(Seq<char>, AggregateStateV)> {
        match self.rollup_group(key, val) {
            Some((gk, s)) => if parts_match(e, self.split(gk)) {
                Some((gk, s))
            } else {
                None
            },
            None => None,
        }
    }

    /// The groups of rollup entries that a query wants; the last entry of a
    /// group counts.
    pub open spec fn rollup_groups(
        &self,
        entries: Seq<(Seq<u8>, Seq<u8>)>,
        e: Seq<Option<Seq<char>>>,
    ) -> Map<Seq<char>, AggregateStateV>
        decreases entries.len(),
    {
        if entries.len() == 0 {
            Map::empty()
        } else {
            let before = self.rollup_groups(entries.drop_last(), e);
            match self.wanted_rollup(entries.last().0, entries.last().1, e) {
                Some((gk, s)) => before.insert(gk, s),
                None => before,
            }
        }
    }

    /// The groups among those that have records.
    pub open spec fn with_records(m: Map<Seq<char>, AggregateStateV>) -> Map<
        Seq<char>,
        AggregateStateV,
    > {
        m.restrict(Set::new(|k: Seq<char>| m.contains_key(k) && m[k].count > 0))
    }

    /// The groups of a ghost's rollups that a query wants. Groups without
    /// records are no groups.
    pub fn read_rollups(
        &self,
        entries: &Vec<(Vec<u8>, Vec<u8>)>,
        expected: &Vec<Option<String>>,
    ) -> (r: Summaries)
        requires
            self.sound(),
        ensures
            aggregate_state::summaries_view(r@) == Self::with_records(
                self.rollup_groups(
                    crate::metric_order::byte_pairs(entries@),
                    opt_names(expected@),
                ),
            ),
    {
        let ghost ev = crate::metric_order::byte_pairs(entries@);
        let ghost e = opt_names(expected@);
        let mut out: Summaries = SortedMap::new();
        let mut i: usize = 0;
        proof {
            assert(ev.take(0) =~= Seq::<(Seq<u8>, Seq<u8>)>::empty());
            assert(aggregate_state::summaries_view(out@) =~= Map::<
                Seq<char>,
                AggregateStateV,
            >::empty());
        }
        while i < entries.len()
            invariant
                i <= entries@.len(),
                self.sound(),
                ev == crate::metric_order::byte_pairs(entries@),
                e == opt_names(expected@),
                aggregate_state::summaries_view(out@) == self.rollup_groups(
                    ev.take(i as int),
                    e,
                ),
            decreases entries@.len() - i,
        {
            assert(ev.take(i + 1).drop_last() =~= ev.take(i as int));
            assert(ev.take(i + 1).last() == (entries@[i as int].0@, entries@[i as int].1@));
            let ghost before = aggregate_state::summaries_view(out@);
            match self.read_rollup(entries[i].0.as_slice(), entries[i].1.as_slice()) {
                Some((gk, s)) => {
                    let parts = self.decode_group_key(gk.as_str());
                    if do_parts_match(expected, &parts) {
                        let ghost g = gk@;
                        let ghost sv = s@;
                        out.insert(gk, s);
                        assert(aggregate_state::summaries_view(out@) =~= before.insert(g, sv));
                    }
                },
                None => {},
            }
            i = i + 1;
        }
        assert(ev.take(i as int) =~= ev);
        let keep = |_k: &str, s: &AggregateState| -> (b: bool)
            ensures
                b == (s.count > 0),
            { s.count > 0 };
        let ghost all = aggregate_state::summaries_view(out@);
        let ghost whole = out@;
        let r = out.filter_with(&keep);
        proof {
            let got = aggregate_state::summaries_view(r@);
            let want = Self::with_records(all);
            assert forall|k: Seq<char>|
                #![trigger got.dom().contains(k)]
                #![trigger want.dom().contains(k)]
                got.dom().contains(k) == want.dom().contains(k) && (got.dom().contains(k) ==> got[k]
                    == want[k]) by {
                assert(whole.contains_key(k) == all.contains_key(k));
                if got.dom().contains(k) {
                    assert(r@.contains_key(k));
                } else if whole.contains_key(k) {
                    assert(!r@.contains_key(k));
                }
            }
            assert(got.dom() =~= want.dom());
            assert(got =~= want);
        }
        r
    }

    /// Unless the equalities clash, which leaves no group, a group has the expected
    /// texts exactly where it satisfies every equality on a group field: none of them
    /// is dropped.
    pub proof fn law_every_equality_counts(
        &self,
        filters: Seq<(Seq<char>, FilterOp, ValueV)>,
        group_fields: Seq<Seq<char>>,
        parts: Seq<Seq<char>>,
    )
        requires
            parts.len() == group_fields.len(),
        ensures
            !self.pins_clash(filters, group_fields) && parts_match(
                self.expected_parts(filters, group_fields),
                parts,
            ) <==> forall|i: int, j: int|
                #![trigger filters[i], group_fields[j]]
                0 <= i < filters.len() && 0 <= j < group_fields.len() && filters[i].1
                    == FilterOp::Eq && filters[i].0 == group_fields[j] ==> parts[j]
                    == self.fragment_of(filters[i].2),
    {
        let e = self.expected_parts(filters, group_fields);
        if !self.pins_clash(filters, group_fields) && parts_match(e, parts) {
            assert forall|i: int, j: int|
                #![trigger filters[i], group_fields[j]]
                0 <= i < filters.len() && 0 <= j < group_fields.len() && filters[i].1
                    == FilterOp::Eq && filters[i].0 == group_fields[j] implies parts[j]
                == self.fragment_of(filters[i].2) by {
                assert(!self.pin_clashes(filters, group_fields, i));
                assert(group_fields.contains(filters[i].0));
                assert(e[j] == Some(self.fragment_of(filters[i].2)));
            }
        }
        if forall|i: int, j: int|
            #![trigger filters[i], group_fields[j]]
            0 <= i < filters.len() && 0 <= j < group_fields.len() && filters[i].1 == FilterOp::Eq
                && filters[i].0 == group_fields[j] ==> parts[j] == self.fragment_of(filters[i].2) {
            assert forall|j: int| 0 <= j < e.len() implies (#[trigger] e[j] matches Some(t) ==> j
                < parts.len() && parts[j] == t) by {
                if e[j] is Some {
                    let k = choose|k: int| first_equality(filters, group_fields[j], k);
                    assert(filters[k].0 == group_fields[j]);
                }
            }
            if self.pins_clash(filters, group_fields) {
                let i = choose|i: int| #[trigger] self.pin_clashes(filters, group_fields, i);
                let j = choose|j: int| 0 <= j < group_fields.len() && group_fields[j]
                    == filters[i].0;
                assert(parts[j] == self.fragment_of(filters[i].2));
                lemma_first_equality(filters, filters[i].0, i);
                let k = choose|k: int| first_equality(filters, group_fields[j], k);
                assert(filters[k].0 == group_fields[j]);
                assert(parts[j] == self.fragment_of(filters[k].2));
            }
        }
    }

    /// A pinned query finds the group by its key or by its texts alike, where
    /// group keys and their texts give each other back and the key of every
    /// group has as many texts as there are group fields.
    pub proof fn law_pinned_lookup_is_filter(
        &self,
        m: Map<Seq<char>, AggregateStateV>,
        e: Seq<Option<Seq<char>>>,
    )
        requires
            all_pinned(e),
            self.split(self.joined(pinned_texts(e))) == pinned_texts(e),
            forall|k: Seq<char>| #[trigger]
                m.contains_key(k) ==> self.joined(self.split(k)) == k && self.split(k).len()
                    == e.len(),
        ensures
            m.restrict(set![self.joined(pinned_texts(e))]) == m.restrict(
                Set::new(|k: Seq<char>| parts_match(e, self.split(k))),
            ),
    {
        let p = pinned_texts(e);
        let a = m.restrict(set![self.joined(p)]);
        let b = m.restrict(Set::new(|k: Seq<char>| parts_match(e, self.split(k))));
        assert forall|k: Seq<char>|
            #![trigger a.dom().contains(k)]
            #![trigger b.dom().contains(k)]
            a.dom().contains(k) == b.dom().contains(k) by {
            if m.contains_key(k) {
                if k == self.joined(p) {
                    assert forall|i: int| 0 <= i < e.len() implies (#[trigger] e[i] matches Some(t)
                        ==> i < self.split(k).len() && self.split(k)[i] == t) by {
                        assert(p[i] == self.split(k)[i]);
                    }
                    assert(parts_match(e, self.split(k)));
                }
                if parts_match(e, self.split(k)) {
                    assert(self.split(k) =~= p) by {
                        assert forall|i: int| 0 <= i < e.len() implies self.split(k)[i] == p[i] by {
                            assert(e[i] is Some);
                        }
                    }
                }
            }
        }
        assert(a.dom() =~= b.dom());
        assert(a =~= b);
    }
}

/// Whether no group field is pinned, and whether all are.
fn pin_counts(expected: &Vec<Option<String>>) -> (r: (bool, bool))
    ensures
        r.0 == none_pinned(opt_names(expected@)),
        r.1 == all_pinned(opt_names(expected@)),
{
    let ghost e = opt_names(expected@);
    let mut none = true;
    let mut all = true;
    let mut i: usize = 0;
    while i < expected.len()
        invariant
            i <= expected@.len(),
            e == opt_names(expected@),
            none == forall|j: int| 0 <= j < i ==> (#[trigger] e[j]) is None,
            all == forall|j: int| 0 <= j < i ==> (#[trigger] e[j]) is Some,
        decreases expected@.len() - i,
    {
        assert(e[i as int] == ghost_keys::opt_text(expected@[i as int]));
        match &expected[i] {
            Some(_) => {
                assert(!(e[i as int] is None));
                none = false;
            },
            None => {
                assert(!(e[i as int] is Some));
                all = false;
            },
        }
        i = i + 1;
    }
    (none, all)
}

/// The pinned texts.
fn unwrap_parts(expected: &Vec<Option<String>>) -> (r: Vec<String>)
    ensures
        text::names(r@) == pinned_texts(opt_names(expected@)),
{
    let ghost want = pinned_texts(opt_names(expected@));
    let mut r: Vec<String> = Vec::new();
    let mut i: usize = 0;
    while i < expected.len()
        invariant
            i <= expected@.len(),
            r@.len() == i,
            want == pinned_texts(opt_names(expected@)),
            forall|j: int| 0 <= j < i ==> (#[trigger] r@[j])@ == want[j],
        decreases expected@.len() - i,
    {
        match &expected[i] {
            Some(t) => {
                r.push(t.clone());
            },
            None => {
                r.push(String::new());
            },
        }
        i = i + 1;
    }
    assert(text::names(r@) =~= want);
    r
}

/// The ghost serves the best groups by the metric: it declares that order, has
/// it written out, and groups by the same fields.
pub open spec fn serves_metric(
    g: GhostMetaV,
    group_fields: Seq<Seq<char>>,
    label: Seq<char>,
    descending: bool,
) -> bool {
    &&& g.order_emitted_at is Some
    &&& g.metric_order matches Some(o) && o.label == label && o.descending == descending
    &&& g.group_fields() == group_fields
}

/// The number of the ghost if it serves the best groups by the metric; else the
/// groups must be ranked.
pub fn read_topn_metric(
    meta: &GhostMeta,
    group_fields: &[String],
    label: &str,
    descending: bool,
) -> (r: Option<u16>)
    ensures
        r == if serves_metric(meta@, text::names(group_fields@), label@, descending) {
            Some(meta@.ghost_id)
        } else {
            None
        },
{
    if meta.order_emitted_at.is_none() {
        return None;
    }
    match &meta.metric_order {
        Some(o) => {
            if bytes::str_equal(o.label.as_str(), label) && o.descending == descending
                && text::names_equal(meta.group_fields(), group_fields) {
                Some(meta.ghost_id)
            } else {
                None
            }
        },
        None => None,
    }
}

/// What is said of the field that a ghost is ordered by: an equality fixes its value,
/// the others bound it from below or from above, and a predicate on another field says
/// nothing.
pub proof fn law_bounds_come_from_predicates(
    filters: Seq<(Seq<char>, FilterOp, ValueV)>,
    field: Seq<char>,
    p: (Seq<char>, FilterOp, ValueV),
)
    ensures
        ({
            let b = bounds_of(filters, field);
            let c = bounds_of(filters.push(p), field);
            &&& p.0 != field ==> c == b
            &&& p.0 == field && p.1 is Eq ==> c.eq == Some(p.2) && c.lo == b.lo && c.hi == b.hi
            &&& p.0 == field && (p.1 is Gt || p.1 is Gte) ==> c.lo == Some(p.2) && c.eq == b.eq
                && c.hi == b.hi
            &&& p.0 == field && (p.1 is Lt || p.1 is Lte) ==> c.hi == Some(p.2) && c.eq == b.eq
                && c.lo == b.lo
            &&& p.0 == field && !(p.1 is Eq || p.1 is Gt || p.1 is Gte || p.1 is Lt || p.1 is Lte)
                ==> c == b
        }),
        bounds_of(Seq::empty(), field).eq is None,
        bounds_of(Seq::empty(), field).lo is None,
        bounds_of(Seq::empty(), field).hi is None,
{
    assert(filters.push(p).drop_last() =~= filters);
}

/// An entry refers to the record whose key it begins with.
pub proof fn law_entry_leads_to_its_key(key: Seq<u8>, rest: Seq<u8>)
    requires
        key.len() == 22,
    ensures
        referred(key + rest) == Some(key),
        forall|e: Seq<u8>| e.len() < 22 ==> #[trigger] referred(e) is None,
{
    assert((key + rest).take(22) =~= key);
}

/// A ghost serves the best groups by a metric exactly where it was declared with that
/// metric and direction, has them written out, and groups by the same fields.
pub proof fn law_metric_is_served_as_declared(
    g: GhostMetaV,
    group_fields: Seq<Seq<char>>,
    label: Seq<char>,
    descending: bool,
)
    ensures
        serves_metric(g, group_fields, label, descending) <==> g.order_emitted_at is Some
            && g.metric_order is Some && g.metric_order->Some_0.label == label
            && g.metric_order->Some_0.descending == descending && g.group_fields() == group_fields,
{
}

impl<
    FT: Fn(&Value) -> String,
    EK: Fn(&Vec<String>) -> String,
    PT: Fn(&str) -> Vec<String>,
    FV: Fn(&str) -> Value,
    RS: Fn(&AggregateState) -> Vec<(String, Value)>,
    SH: Fn(&Value) -> String,
    EN: Fn(&AggregateState) -> Vec<u8>,
    DE: Fn(&[u8]) -> Option<AggregateState>,
> RowOps<FT, EK, PT, FV, RS, SH, EN, DE> {
    /// The groups that answer a query are those of the ghost that satisfy every equality on
    /// a group field, with their states; where two equalities clash there is none. Group
    /// keys and their texts give each other back.
    pub proof fn law_groups_answer_every_equality(
        &self,
        m: Map<Seq<char>, AggregateStateV>,
        filters: Seq<(Seq<char>, FilterOp, ValueV)>,
        group_fields: Seq<Seq<char>>,
        k: Seq<char>,
    )
        requires
            !self.pins_clash(filters, group_fields),
            all_pinned(self.expected_parts(filters, group_fields)) ==> self.split(
                self.joined(pinned_texts(self.expected_parts(filters, group_fields))),
            ) == pinned_texts(self.expected_parts(filters, group_fields)),
            forall|n: Seq<char>| #[trigger]
                m.contains_key(n) ==> self.joined(self.split(n)) == n && self.split(n).len()
                    == group_fields.len(),
        ensures
            ({
                let answer = self.wanted_groups(m, self.expected_parts(filters, group_fields));
                &&& answer.contains_key(k) <==> m.contains_key(k) && forall|i: int, j: int|
                    #![trigger filters[i], group_fields[j]]
                    0 <= i < filters.len() && 0 <= j < group_fields.len() && filters[i].1
                        == FilterOp::Eq && filters[i].0 == group_fields[j] ==> self.split(k)[j]
                        == self.fragment_of(filters[i].2)
                &&& answer.contains_key(k) ==> answer[k] == m[k]
            }),
    {
        let e = self.expected_parts(filters, group_fields);
        if m.contains_key(k) {
            self.law_every_equality_counts(filters, group_fields, self.split(k));
        }
        let matched = m.restrict(Set::new(|n: Seq<char>| parts_match(e, self.split(n))));
        if !none_pinned(e) && all_pinned(e) {
            self.law_pinned_lookup_is_filter(m, e);
        }
        assert(none_pinned(e) ==> parts_match(e, self.split(k)));
        assert(matched.contains_key(k) <==> m.contains_key(k) && parts_match(e, self.split(k)));
    }

    /// What a ghost has precomputed answers a query by its own groups with those of them
    /// that are asked for, and any other query with the aggregate over all members. A ghost
    /// without aggregates answers that there is nothing.
    pub proof fn law_precomputed_answers_by_groups(
        &self,
        g: GhostMetaV,
        group_by: Seq<Seq<char>>,
        filters: Seq<(Seq<char>, FilterOp, ValueV)>,
        r: Precomputed,
    )
        requires
            self.is_precomputed(g, group_by, filters, r),
        ensures
            g.aggregate matches Some(a) ==> {
                let own = group_by.len() > 0 && group_by == a.group_fields;
                &&& !own ==> (r matches Precomputed::Ready(x) && x@ == GhostAggregatesV::Global(
                    a.global,
                ))
                &&& own && self.pins_clash(filters, a.group_fields) ==> (
                r matches Precomputed::Ready(x) && (x@ matches GhostAggregatesV::Grouped(m)
                    && forall|k: Seq<char>| !(#[trigger] m.contains_key(k))))
                &&& own && !self.pins_clash(filters, a.group_fields) && a.residency is InRam ==> (
                r matches Precomputed::Ready(x) && x@ == GhostAggregatesV::Grouped(
                    self.wanted_groups(
                        a.residency->InRam_0,
                        self.expected_parts(filters, a.group_fields),
                    ),
                ))
                &&& own && !self.pins_clash(filters, a.group_fields) && a.residency is Spilled
                    ==> r is Rollups
            },
            g.aggregate is None ==> (r matches Precomputed::Ready(x) && (
            x@ matches GhostAggregatesV::Global(s) && s.count == 0)),
    {
    }

    /// A group that a rollup's entry holds is answered where its texts are those expected;
    /// of two entries of one group the last counts.
    pub proof fn law_rollup_entry_is_read(
        &self,
        entries: Seq<(Seq<u8>, Seq<u8>)>,
        e: Seq<Option<Seq<char>>>,
        key: Seq<u8>,
        val: Seq<u8>,
        gk: Seq<char>,
        s: AggregateStateV,
        other: Seq<char>,
    )
        requires
            ghost_keys::key_group(key) == Some(gk),
            self.decoded(val) == Some(s),
            other != gk,
        ensures
            ({
                let before = self.rollup_groups(entries, e);
                let after = self.rollup_groups(entries.push((key, val)), e);
                let matches = forall|i: int|
                    0 <= i < e.len() && (#[trigger] e[i]) is Some ==> i < self.split(gk).len()
                        && Some(self.split(gk)[i]) == e[i];
                &&& matches ==> after.contains_key(gk) && after[gk] == s
                &&& !matches ==> after == before
                &&& (after.contains_key(other) <==> before.contains_key(other))
                    && after[other] == before[other]
            }),
    {
        assert(entries.push((key, val)).drop_last() =~= entries);
        let matches = forall|i: int|
            0 <= i < e.len() && (#[trigger] e[i]) is Some ==> i < self.split(gk).len() && Some(
                self.split(gk)[i],
            ) == e[i];
        assert(matches == parts_match(e, self.split(gk))) by {
            if matches {
                assert forall|i: int| 0 <= i < e.len() implies (#[trigger] e[i] matches Some(t)
                    ==> i < self.split(gk).len() && self.split(gk)[i] == t) by {
                    if e[i] is Some {
                        assert(Some(self.split(gk)[i]) == e[i]);
                    }
                }
            }
        }
    }

    /// The groups with records are those that count some.
    pub proof fn law_empty_groups_are_left_out(m: Map<Seq<char>, AggregateStateV>, k: Seq<char>)
        ensures
            Self::with_records(m).contains_key(k) <==> m.contains_key(k) && m[k].count > 0,
            Self::with_records(m).contains_key(k) ==> Self::with_records(m)[k] == m[k],
    {
    }
}

} // verus!
