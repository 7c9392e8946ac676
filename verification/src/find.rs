//! Finding records: by identity, by an anchor, in a gravity bucket, or by a scan.

use crate::ast;
use crate::ast::{Filter, FilterExpr, FilterExprV, FilterOp, FilterV, Literal, LiteralV};
use crate::bytes;
use crate::canon::Canon;
use crate::error;
use crate::error::XyzError;
use crate::filter;
use crate::layout;
use crate::record;
use crate::record::Record;
use crate::scan;
use crate::selection;
use crate::text;
use crate::value::{Value, ValueV};
use vstd::prelude::*;

verus! {

/// What is looked for.
pub enum FindTarget {
    /// The record with an identity.
    ByLid(String),
    /// Records of a lobe.
    Lobe(String),
}

/// What is known of a find: whether it resumes at a cursor or has a limit, and
/// of its lobe whether it exists, whether a predicate pins an anchor, and which
/// gravity bucket the predicates pin.
#[derive(Clone, Copy, Debug, PartialEq, Eq, Structural)]
pub struct FindFacts {
    pub has_cursor: bool,
    pub limit: Option<u64>,
    pub lobe_known: bool,
    pub anchor_eq: bool,
    pub hash: Option<u64>,
}

/// How a find is run.
#[derive(Clone, Copy, Debug, PartialEq, Eq, Structural)]
pub enum FindPlan {
    /// A page of a gravity bucket, resumed at the cursor.
    Resume { hash: u64, limit: u64 },
    /// The first page of a gravity bucket.
    FirstPage { hash: u64, limit: u64 },
    /// All records at once.
    Whole,
}

/// How many records a page has.
pub open spec fn page_limit(limit: Option<u64>) -> u64 {
    match limit {
        Some(l) => l,
        None => scan::SCAN_LIMIT_DEFAULT,
    }
}

/// How a find is run, or why it cannot be resumed.
pub open spec fn is_find_plan(
    target: FindTarget,
    f: FindFacts,
    r: Result<FindPlan, XyzError>,
) -> bool {
    if f.has_cursor {
        match target {
            FindTarget::ByLid(_) => error::is_invalid(
                r,
                "cursor not applicable to FIND LID(...); single-record lookup"@,
            ),
            FindTarget::Lobe(name) => if !f.lobe_known {
                r matches Err(XyzError::LobeNotFound(m)) && m@ == name@
            } else if f.anchor_eq {
                error::is_invalid(
                    r,
                    "cursor not applicable to anchor lookup; CURSOR is for paginated iteration. An anchor returns at most 1 record."@,
                )
            } else {
                match f.hash {
                    Some(h) => r == Ok::<FindPlan, XyzError>(
                        FindPlan::Resume { hash: h, limit: page_limit(f.limit) },
                    ),
                    None => error::is_invalid(
                        r,
                        "field has no anchor or gravity; CURSOR is supported only on fast paths. Use SCAN for full-lobe iteration, or declare ANCHOR / register gravity."@,
                    ),
                }
            },
        }
    } else if f.limit is Some && target is Lobe && f.lobe_known && !f.anchor_eq && f.hash is Some {
        r == Ok::<FindPlan, XyzError>(
            FindPlan::FirstPage { hash: f.hash->Some_0, limit: page_limit(f.limit) },
        )
    } else {
        r == Ok::<FindPlan, XyzError>(FindPlan::Whole)
    }
}

/// Decides how a find is run.
pub fn execute_find(target: &FindTarget, f: FindFacts) -> (r: Result<FindPlan, XyzError>)
    ensures
        is_find_plan(*target, f, r),
{
    let limit: u64 = match f.limit {
        Some(l) => l,
        None => scan::SCAN_LIMIT_DEFAULT,
    };
    match target {
        FindTarget::ByLid(_) => {
            if f.has_cursor {
                return error::invalid(
                    "cursor not applicable to FIND LID(...); single-record lookup",
                );
            }
            Ok(FindPlan::Whole)
        },
        FindTarget::Lobe(name) => {
            if f.has_cursor {
                if !f.lobe_known {
                    return Err(XyzError::LobeNotFound(name.clone()));
                }
                if f.anchor_eq {
                    return error::invalid(
                        "cursor not applicable to anchor lookup; CURSOR is for paginated iteration. An anchor returns at most 1 record.",
                    );
                }
                return match f.hash {
                    Some(h) => Ok(FindPlan::Resume { hash: h, limit }),
                    None => error::invalid(
                        "field has no anchor or gravity; CURSOR is supported only on fast paths. Use SCAN for full-lobe iteration, or declare ANCHOR / register gravity.",
                    ),
                };
            }
            if f.limit.is_some() && f.lobe_known && !f.anchor_eq {
                if let Some(h) = f.hash {
                    return Ok(FindPlan::FirstPage { hash: h, limit });
                }
            }
            Ok(FindPlan::Whole)
        },
    }
}

/// The resume point lies in the bucket between the two keys.
pub open spec fn in_bucket(k: Seq<u8>, min: Seq<u8>, max: Seq<u8>) -> bool {
    k.len() == layout::SPATIAL_KEY_SIZE && bytes::lex_le(min, k) && bytes::lex_le(k, max)
}

/// Checks that a resume point lies in the bucket between the two keys.
pub fn check_resume(k: &[u8], min: &[u8], max: &[u8]) -> (r: Result<(), XyzError>)
    ensures
        if in_bucket(k@, min@, max@) {
            r is Ok
        } else {
            error::is_invalid(
                r,
                "cursor invalid: resume point falls outside the gravity bucket"@,
            )
        },
{
    proof {
        bytes::lemma_lex_total(k@, min@);
        bytes::lemma_lex_total(k@, max@);
        if bytes::lex_lt(k@, min@) {
            bytes::lemma_lex_asymmetric(k@, min@);
        }
        if bytes::lex_lt(max@, k@) {
            bytes::lemma_lex_asymmetric(max@, k@);
        }
    }
    if k.len() != layout::SPATIAL_KEY_SIZE || bytes::bytes_less(k, min) || bytes::bytes_less(
        max,
        k,
    ) {
        return error::invalid("cursor invalid: resume point falls outside the gravity bucket");
    }
    Ok(())
}

/// The first condition that pins an anchor.
pub open spec fn first_anchor_eq(
    filters: Seq<FilterV>,
    anchors: Seq<Seq<char>>,
    i: int,
) -> bool {
    &&& 0 <= i < filters.len()
    &&& pins(filters[i], anchors)
    &&& forall|j: int| 0 <= j < i ==> !pins(#[trigger] filters[j], anchors)
}

/// The condition pins an anchor.
pub open spec fn pins(f: FilterV, anchors: Seq<Seq<char>>) -> bool {
    f.op == FilterOp::Eq && anchors.contains(f.field)
}

/// The place of the first condition that pins an anchor.
pub fn anchor_condition(filters: &[Filter], anchors: &[String]) -> (r: Option<usize>)
    ensures
        match r {
            Some(i) => first_anchor_eq(
                ast::filters_view(filters@),
                text::names(anchors@),
                i as int,
            ),
            None => forall|i: int|
                0 <= i < filters@.len() ==> !pins(
                    #[trigger] ast::filters_view(filters@)[i],
                    text::names(anchors@),
                ),
        },
{
    let ghost fv = ast::filters_view(filters@);
    let mut i: usize = 0;
    while i < filters.len()
        invariant
            i <= filters@.len(),
            fv == ast::filters_view(filters@),
            forall|j: int| 0 <= j < i ==> !pins(#[trigger] fv[j], text::names(anchors@)),
        decreases filters@.len() - i,
    {
        assert(fv[i as int] == filters@[i as int]@);
        if filters[i].op == FilterOp::Eq && text::names_contain(
            anchors,
            filters[i].field.as_str(),
        ) {
            return Some(i);
        }
        i = i + 1;
    }
    None
}

/// How the records of a find are reached.
#[derive(Clone, Copy, Debug, PartialEq, Eq, Structural)]
pub enum FindWay {
    /// By the identity that was asked for.
    Identity,
    /// By the value to which the condition at a place pins an anchor.
    Anchor(usize),
    /// Through the bucket to which the conditions pin the lobe's gravity.
    Bucket(u64),
    /// Through the whole lobe.
    WholeLobe,
}

/// How the records of a find are reached: by their identity; by the first anchor
/// that a condition pins; in the bucket that the conditions pin; or in the whole
/// lobe.
pub open spec fn is_find_way(
    target: FindTarget,
    filters: Seq<FilterV>,
    anchors: Option<Seq<Seq<char>>>,
    hash: Option<u64>,
    r: Result<FindWay, XyzError>,
) -> bool {
    match target {
        FindTarget::ByLid(_) => r == Ok::<FindWay, XyzError>(FindWay::Identity),
        FindTarget::Lobe(name) => match anchors {
            None => r matches Err(XyzError::LobeNotFound(m)) && m@ == name@,
            Some(a) => if exists|i: int| #[trigger] first_anchor_eq(filters, a, i) {
                r matches Ok(FindWay::Anchor(i)) && first_anchor_eq(filters, a, i as int)
            } else {
                match hash {
                    Some(h) => r == Ok::<FindWay, XyzError>(FindWay::Bucket(h)),
                    None => r == Ok::<FindWay, XyzError>(FindWay::WholeLobe),
                }
            },
        },
    }
}

/// Decides how the records of a find are reached. `anchors` are those of the lobe,
/// if it exists, and `hash` is that of the bucket which the conditions pin.
pub fn find_way(
    target: &FindTarget,
    filters: &[Filter],
    anchors: Option<&Vec<String>>,
    hash: Option<u64>,
) -> (r: Result<FindWay, XyzError>)
    ensures
        is_find_way(
            *target,
            ast::filters_view(filters@),
            match anchors {
                Some(a) => Some(text::names(a@)),
                None => None,
            },
            hash,
            r,
        ),
{
    match target {
        FindTarget::ByLid(_) => Ok(FindWay::Identity),
        FindTarget::Lobe(name) => match anchors {
            None => Err(XyzError::LobeNotFound(name.clone())),
            Some(a) => match anchor_condition(filters, a.as_slice()) {
                Some(i) => Ok(FindWay::Anchor(i)),
                None => match hash {
                    Some(h) => Ok(FindWay::Bucket(h)),
                    None => Ok(FindWay::WholeLobe),
                },
            },
        },
    }
}

/// How a literal reads that is neither a text, an integer, a boolean nor a null.
pub struct LiteralText<R> {
    pub render: R,
}

impl<R: Fn(&Literal) -> String> LiteralText<R> {
    /// The reading accepts everything and depends on what the literal says alone.
    pub open spec fn sound(&self) -> bool {
        &&& forall|l: &Literal| #[trigger] self.render.requires((l,))
        &&& forall|l: &Literal, m: &Literal, a: String, b: String|
            #![trigger self.render.ensures((l,), a), self.render.ensures((m,), b)]
            self.render.ensures((l,), a) && self.render.ensures((m,), b) && l@ == m@ ==> a@ == b@
    }

    /// `s` is how the literal reads.
    pub open spec fn reads_as(&self, l: LiteralV, s: Seq<char>) -> bool {
        exists|m: &Literal, r: String|
            m@ == l && r@ == s && #[trigger] self.render.ensures((m,), r)
    }

    /// How a literal reads.
    pub open spec fn reading_of(&self, l: LiteralV) -> Seq<char> {
        choose|s: Seq<char>| self.reads_as(l, s)
    }

    /// The text by which an anchor is looked up.
    pub open spec fn lookup_text(&self, l: LiteralV) -> Seq<char> {
        match l {
            LiteralV::Int(n) => text::decimal(n as int),
            LiteralV::Text(s) => s,
            LiteralV::Bool(b) => if b {
                "true"@
            } else {
                "false"@
            },
            LiteralV::Timestamp(s) => s,
            LiteralV::Lid(s) => s,
            LiteralV::Null => "null"@,
            _ => self.reading_of(l),
        }
    }

    /// The text by which an anchor is looked up. All parameters are bound.
    pub fn literal_to_string(&self, l: &Literal) -> (r: String)
        requires
            self.sound(),
            ast::bound(l@),
        ensures
            r@ == self.lookup_text(l@),
    {
        match l {
            Literal::Int(n) => text::decimal_text(*n as i128),
            Literal::Text(s) => s.clone(),
            Literal::Bool(b) => if *b {
                "true".to_owned()
            } else {
                "false".to_owned()
            },
            Literal::Timestamp(s) => s.clone(),
            Literal::Lid(s) => s.clone(),
            Literal::Null => "null".to_owned(),
            _ => {
                let t = (self.render)(l);
                assert(self.reads_as(l@, t@));
                t
            },
        }
    }
}

/// A text, an integer or a boolean is looked up by the text that the record's anchor
/// was written by, so that a search by an anchor reads the key that the write made.
pub proof fn law_lookup_reads_written_key<
    Q: Fn(&Literal) -> String,
    H: Fn(&str) -> u64,
    R: Fn(&Value) -> String,
>(lookup: LiteralText<Q>, canon: Canon<H, R>, l: LiteralV)
    requires
        l is Text || l is Int || l is Bool,
    ensures
        lookup.lookup_text(l) == canon.anchor_text(filter::literal_value(l)),
{
}

/// Whether the entry of an anchor leads to an identity: it has its length.
pub fn check_lid_entry(entry: &[u8]) -> (r: Result<(), XyzError>)
    ensures
        if entry@.len() == layout::LID_SIZE {
            r is Ok
        } else {
            r matches Err(XyzError::Internal(m)) && m@ == "bad LID in dictionary"@
        },
{
    if entry.len() != layout::LID_SIZE {
        return Err(XyzError::Internal("bad LID in dictionary".to_owned()));
    }
    Ok(())
}

/// A key brought to the length of a spatial key: cut, or filled up with zeros.
pub open spec fn fitted_key(k: Seq<u8>) -> Seq<u8> {
    Seq::new(
        layout::SPATIAL_KEY_SIZE as nat,
        |i: int|
            if i < k.len() {
                k[i]
            } else {
                0
            },
    )
}

/// A key brought to the length of a spatial key.
pub fn fit_key(k: &[u8]) -> (r: Vec<u8>)
    ensures
        r@ == fitted_key(k@),
{
    let mut r: Vec<u8> = Vec::new();
    while r.len() < layout::SPATIAL_KEY_SIZE
        invariant
            r@.len() <= layout::SPATIAL_KEY_SIZE,
            forall|i: int|
                0 <= i < r@.len() ==> #[trigger] r@[i] == if i < k@.len() {
                    k@[i]
                } else {
                    0
                },
        decreases layout::SPATIAL_KEY_SIZE - r@.len(),
    {
        let i: usize = r.len();
        if i < k.len() {
            r.push(k[i]);
        } else {
            r.push(0);
        }
    }
    assert(r@ =~= fitted_key(k@));
    r
}

/// Records with their spatial keys.
pub open spec fn found_view(s: Seq<(Record, Vec<u8>)>) -> Seq<(Record, Seq<u8>)> {
    s.map_values(|e: (Record, Vec<u8>)| (e.0, e.1@))
}

/// The entry counts: of a bucket only those with whole spatial keys do.
pub open spec fn counts(way: FindWay, key: Seq<u8>) -> bool {
    way is Bucket ==> key.len() == layout::SPATIAL_KEY_SIZE
}

/// The record is one that a find looks for: it satisfies every predicate, unless
/// it is asked for by its identity, and passes the condition.
pub open spec fn wanted<T: Fn(&Record, &(String, record::FilterOp, Value)) -> bool>(
    test: T,
    way: FindWay,
    predicates: Seq<(Seq<char>, record::FilterOp, ValueV)>,
    filter: Option<FilterExprV>,
    rec: Record,
) -> bool {
    &&& way is Identity || selection::satisfies_all(test, rec@, predicates)
    &&& selection::passes(test, filter, rec@)
}

/// What a find makes of the entries on its way, in their order.
pub open spec fn found_among<T: Fn(&Record, &(String, record::FilterOp, Value)) -> bool>(
    test: T,
    way: FindWay,
    predicates: Seq<(Seq<char>, record::FilterOp, ValueV)>,
    filter: Option<FilterExprV>,
    entries: Seq<(Seq<u8>, Record)>,
) -> Seq<(Record, Seq<u8>)>
    decreases entries.len(),
{
    if entries.len() == 0 {
        Seq::empty()
    } else {
        let before = found_among(test, way, predicates, filter, entries.drop_last());
        let e = entries.last();
        if counts(way, e.0) && wanted(test, way, predicates, filter, e.1) {
            before.push((e.1, fitted_key(e.0)))
        } else {
            before
        }
    }
}

/// Every record that a find answers with is one that it looks for, so one that only
/// shares the bucket of such a record is turned away; and none that it looks for is
/// missing of those on its way.
pub proof fn law_found_are_wanted<T: Fn(&Record, &(String, record::FilterOp, Value)) -> bool>(
    test: T,
    way: FindWay,
    predicates: Seq<(Seq<char>, record::FilterOp, ValueV)>,
    filter: Option<FilterExprV>,
    entries: Seq<(Seq<u8>, Record)>,
)
    ensures
        ({
            let found = found_among(test, way, predicates, filter, entries);
            &&& forall|i: int|
                0 <= i < found.len() ==> wanted(
                    test,
                    way,
                    predicates,
                    filter,
                    (#[trigger] found[i]).0,
                )
            &&& forall|i: int|
                0 <= i < entries.len() && counts(way, (#[trigger] entries[i]).0) && wanted(
                    test,
                    way,
                    predicates,
                    filter,
                    entries[i].1,
                ) ==> found.contains((entries[i].1, fitted_key(entries[i].0)))
        }),
    decreases entries.len(),
{
    if entries.len() > 0 {
        let d = entries.drop_last();
        let q = found_among(test, way, predicates, filter, d);
        let r = found_among(test, way, predicates, filter, entries);
        law_found_are_wanted(test, way, predicates, filter, d);
        assert forall|i: int| 0 <= i < r.len() implies wanted(
            test,
            way,
            predicates,
            filter,
            (#[trigger] r[i]).0,
        ) by {
            if i < q.len() {
                assert(r[i] == q[i]);
            }
        }
        assert forall|i: int|
            0 <= i < entries.len() && counts(way, (#[trigger] entries[i]).0) && wanted(
                test,
                way,
                predicates,
                filter,
                entries[i].1,
            ) implies r.contains((entries[i].1, fitted_key(entries[i].0))) by {
            let x = (entries[i].1, fitted_key(entries[i].0));
            if i < d.len() {
                assert(d[i] == entries[i]);
                assert(q.contains(x));
                let j = choose|j: int| 0 <= j < q.len() && q[j] == x;
                assert(r[j] == x);
            } else {
                assert(r[r.len() - 1] == x);
            }
        }
    }
}

/// The records that a find came upon.
pub struct FoundRecords {
    way: FindWay,
    items: Vec<(Record, Vec<u8>)>,
}

impl FoundRecords {
    /// How the records are reached.
    pub closed spec fn way(&self) -> FindWay {
        self.way
    }

    /// The records found, with their keys.
    pub closed spec fn found(&self) -> Seq<(Record, Seq<u8>)> {
        found_view(self.items@)
    }

    /// No record yet.
    pub fn new(way: FindWay) -> (r: Self)
        ensures
            r.way() == way,
            r.found() == Seq::<(Record, Seq<u8>)>::empty(),
    {
        let r = FoundRecords { way, items: Vec::new() };
        assert(r.found() =~= Seq::<(Record, Seq<u8>)>::empty());
        r
    }

    /// Offers the next entry on the way.
    pub fn offer_if<T: Fn(&Record, &(String, record::FilterOp, Value)) -> bool>(
        &mut self,
        predicates: &[(String, record::FilterOp, Value)],
        filter: &Option<FilterExpr>,
        key: &[u8],
        rec: Record,
        test: &T,
    )
        requires
            selection::tests(*test),
            selection::bound(filter::opt_expr_view(*filter)),
        ensures
            final(self).way() == old(self).way(),
            final(self).found() == if counts(old(self).way(), key@) && wanted(
                *test,
                old(self).way(),
                record::predicates_view(predicates@),
                filter::opt_expr_view(*filter),
                rec,
            ) {
                old(self).found().push((rec, fitted_key(key@)))
            } else {
                old(self).found()
            },
            forall|entries: Seq<(Seq<u8>, Record)>|
                old(self).found() == #[trigger] found_among(
                    *test,
                    old(self).way(),
                    record::predicates_view(predicates@),
                    filter::opt_expr_view(*filter),
                    entries,
                ) ==> final(self).found() == found_among(
                    *test,
                    old(self).way(),
                    record::predicates_view(predicates@),
                    filter::opt_expr_view(*filter),
                    entries.push((key@, rec)),
                ),
    {
        proof {
            assert forall|entries: Seq<(Seq<u8>, Record)>|
                entries.push((key@, rec)).drop_last() == entries by {
                assert(entries.push((key@, rec)).drop_last() =~= entries);
            }
        }
        let (by_identity, whole_keys) = match self.way {
            FindWay::Identity => (true, false),
            FindWay::Bucket(_) => (false, true),
            _ => (false, false),
        };
        if whole_keys && key.len() != layout::SPATIAL_KEY_SIZE {
            return;
        }
        if !by_identity && !selection::record_satisfies_all(test, &rec, predicates) {
            return;
        }
        if !selection::record_passes(test, filter, &rec) {
            return;
        }
        let ghost before = self.items@;
        self.items.push((rec, fit_key(key)));
        assert(found_view(self.items@) =~= found_view(before).push((rec, fitted_key(key@))));
    }

    /// The records with their keys.
    pub fn finish(self) -> (r: Vec<(Record, Vec<u8>)>)
        ensures
            found_view(r@) == self.found(),
    {
        self.items
    }
}

/// What a find answers with are the entries on its way whose records satisfy every
/// predicate, unless it goes by an identity, and pass the condition, in their order. In a
/// bucket those count whose keys have the full length.
pub proof fn law_found_in_order<T: Fn(&Record, &(String, record::FilterOp, Value)) -> bool>(
    test: T,
    way: FindWay,
    predicates: Seq<(Seq<char>, record::FilterOp, ValueV)>,
    filter: Option<FilterExprV>,
    entries: Seq<(Seq<u8>, Record)>,
)
    ensures
        found_among(test, way, predicates, filter, entries).map_values(
            |e: (Record, Seq<u8>)| e.0,
        ) == entries.filter(
            |e: (Seq<u8>, Record)|
                {
                    &&& way is Identity || forall|i: int|
                        0 <= i < predicates.len() ==> selection::satisfies(
                            test,
                            e.1@,
                            #[trigger] predicates[i],
                        )
                    &&& selection::passes(test, filter, e.1@)
                    &&& way is Bucket ==> e.0.len() == 22
                },
        ).map_values(|e: (Seq<u8>, Record)| e.1),
    decreases entries.len(),
{
    reveal(Seq::filter);
    let p = |e: (Seq<u8>, Record)|
        {
            &&& way is Identity || forall|i: int|
                0 <= i < predicates.len() ==> selection::satisfies(
                    test,
                    e.1@,
                    #[trigger] predicates[i],
                )
            &&& selection::passes(test, filter, e.1@)
            &&& way is Bucket ==> e.0.len() == 22
        };
    let first = |e: (Record, Seq<u8>)| e.0;
    let second = |e: (Seq<u8>, Record)| e.1;
    let found = found_among(test, way, predicates, filter, entries);
    if entries.len() > 0 {
        let d = entries.drop_last();
        let e = entries.last();
        law_found_in_order(test, way, predicates, filter, d);
        let before = found_among(test, way, predicates, filter, d);
        assert(p(e) == (counts(way, e.0) && wanted(test, way, predicates, filter, e.1)));
        if p(e) {
            assert(found.map_values(first) =~= before.map_values(first).push(e.1));
            assert(entries.filter(p).map_values(second) =~= d.filter(p).map_values(second).push(
                e.1,
            ));
        }
    } else {
        assert(found.map_values(first) =~= entries.filter(p).map_values(second));
    }
}

/// The key of a record that was found is the first bytes of the entry's key, filled up
/// with zeros to the length of a spatial key.
pub proof fn law_found_key_begins_as_stored(k: Seq<u8>, i: int)
    requires
        0 <= i < 22,
    ensures
        fitted_key(k).len() == 22,
        i < k.len() ==> fitted_key(k)[i] == k[i],
        i >= k.len() ==> fitted_key(k)[i] == 0,
{
}

/// A find goes by the identity that is asked for. In a lobe it goes by an anchor where
/// some condition equates one, by the first such condition, or else by the bucket that is
/// pinned, or else through the whole lobe.
pub proof fn law_find_goes_the_shortest_way(
    target: FindTarget,
    filters: Seq<FilterV>,
    anchors: Seq<Seq<char>>,
    hash: Option<u64>,
    r: Result<FindWay, XyzError>,
)
    requires
        is_find_way(target, filters, Some(anchors), hash, r),
    ensures
        r is Ok,
        target is ByLid <==> r == Ok::<FindWay, XyzError>(FindWay::Identity),
        target is Lobe ==> ((exists|i: int|
            0 <= i < filters.len() && (#[trigger] filters[i]).op is Eq && anchors.contains(
                filters[i].field,
            )) <==> (r matches Ok(FindWay::Anchor(_)))),
        r matches Ok(FindWay::Anchor(i)) ==> i < filters.len() && filters[i as int].op is Eq
            && anchors.contains(filters[i as int].field) && forall|j: int|
            0 <= j < i && (#[trigger] filters[j]).op is Eq ==> !anchors.contains(filters[j].field),
        r matches Ok(FindWay::Bucket(h)) ==> hash == Some(h),
        r matches Ok(FindWay::WholeLobe) ==> hash is None,
{
    if exists|i: int|
        0 <= i < filters.len() && (#[trigger] filters[i]).op is Eq && anchors.contains(
            filters[i].field,
        ) {
        let i = choose|i: int|
            0 <= i < filters.len() && (#[trigger] filters[i]).op is Eq && anchors.contains(
                filters[i].field,
            );
        lemma_first_anchor_eq(filters, anchors, i);
    }
    match r {
        Ok(FindWay::Anchor(i)) => {
            assert(first_anchor_eq(filters, anchors, i as int));
            assert forall|j: int|
                0 <= j < i && (#[trigger] filters[j]).op is Eq implies !anchors.contains(
                filters[j].field,
            ) by {
                assert(!pins(filters[j], anchors));
            }
        },
        _ => {},
    }
}

proof fn lemma_first_anchor_eq(filters: Seq<FilterV>, anchors: Seq<Seq<char>>, i: int)
    requires
        0 <= i < filters.len(),
        pins(filters[i], anchors),
    ensures
        exists|k: int| #[trigger] first_anchor_eq(filters, anchors, k),
    decreases i,
{
    if forall|j: int| 0 <= j < i ==> !pins(#[trigger] filters[j], anchors) {
        assert(first_anchor_eq(filters, anchors, i));
    } else {
        let j = choose|j: int| 0 <= j < i && pins(#[trigger] filters[j], anchors);
        lemma_first_anchor_eq(filters, anchors, j);
    }
}

/// A find that is resumed reads on in the bucket that its conditions pin, and only there:
/// one by an identity or an anchor, or without a bucket, is refused. One that is not
/// resumed reads a first page of the bucket where it has a limit, and all where not. A
/// page has as many records as asked for, or else a thousand.
pub proof fn law_finds_are_paged_in_buckets(
    target: FindTarget,
    f: FindFacts,
    r: Result<FindPlan, XyzError>,
)
    requires
        is_find_plan(target, f, r),
    ensures
        ({
            let paged = target is Lobe && f.lobe_known && !f.anchor_eq && f.hash is Some;
            let n: u64 = if f.limit is Some {
                f.limit->Some_0
            } else {
                1000
            };
            &&& f.has_cursor && paged ==> r == Ok::<FindPlan, XyzError>(
                FindPlan::Resume { hash: f.hash->Some_0, limit: n },
            )
            &&& f.has_cursor && !paged ==> r is Err
            &&& !f.has_cursor && paged && f.limit is Some ==> r == Ok::<FindPlan, XyzError>(
                FindPlan::FirstPage { hash: f.hash->Some_0, limit: n },
            )
            &&& !f.has_cursor && !(paged && f.limit is Some) ==> r == Ok::<FindPlan, XyzError>(
                FindPlan::Whole,
            )
        }),
{
}

/// A resume point is good where it is a whole key that sorts neither before the first key
/// of the bucket nor after the last.
pub proof fn law_resume_point_is_in_bucket(k: Seq<u8>, min: Seq<u8>, max: Seq<u8>)
    ensures
        in_bucket(k, min, max) <==> k.len() == 22 && !bytes::lex_lt(k, min) && !bytes::lex_lt(
            max,
            k,
        ),
{
    bytes::lemma_lex_total(k, min);
    bytes::lemma_lex_total(k, max);
    bytes::lemma_lex_irreflexive(k);
    if bytes::lex_lt(min, k) {
        bytes::lemma_lex_asymmetric(min, k);
    }
    if bytes::lex_lt(k, max) {
        bytes::lemma_lex_asymmetric(k, max);
    }
}

} // verus!
