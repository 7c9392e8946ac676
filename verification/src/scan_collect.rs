//! What a scan keeps of the records that pass its filter: the first ones, a page,
//! or the first ones in an order.

use crate::ast::{FilterExpr, FilterExprV};
use crate::bytes;
use crate::error::XyzError;
use crate::filter;
use crate::float;
use crate::layout;
use crate::record::{FilterOp, Record, RecordV};
use crate::selection;
use crate::value;
use crate::value::{Compared, Value, ValueV};
use vstd::prelude::*;

verus! {

/// The first `n`, or all where there are fewer or no number is given.
pub open spec fn capped<T>(s: Seq<T>, n: Option<u64>) -> Seq<T> {
    match n {
        Some(l) => if l < s.len() {
            s.take(l as int)
        } else {
            s
        },
        None => s,
    }
}

/// There are more than the number given.
pub open spec fn over_cap<T>(s: Seq<T>, n: Option<u64>) -> bool {
    n matches Some(l) && l < s.len()
}

/// The first records of a scan. One more than wanted is looked for, so that a
/// scan that was cut short says so.
pub struct CappedScan {
    limit: Option<u64>,
    results: Vec<Record>,
    truncated: bool,
    passed: Ghost<Seq<Record>>,
}

impl CappedScan {
    /// How many records are wanted.
    pub closed spec fn wanted(&self) -> Option<u64> {
        self.limit
    }

    /// The records that passed, as far as they were offered.
    pub closed spec fn offered(&self) -> Seq<Record> {
        self.passed@
    }

    #[verifier::type_invariant]
    spec fn wf(&self) -> bool {
        &&& self.results@ == capped(self.passed@, self.limit)
        &&& self.truncated == over_cap(self.passed@, self.limit)
    }

    /// No record yet.
    pub fn new(limit: Option<u64>) -> (r: Self)
        ensures
            r.wanted() == limit,
            r.offered() == Seq::<Record>::empty(),
    {
        let results: Vec<Record> = Vec::new();
        assert(results@ =~= capped(Seq::<Record>::empty(), limit));
        CappedScan { limit, results, truncated: false, passed: Ghost(Seq::empty()) }
    }

    /// Offers a record that passed. Says whether the scan goes on: it stops at
    /// the first record more than wanted.
    pub fn offer(&mut self, rec: Record) -> (go_on: bool)
        ensures
            final(self).wanted() == old(self).wanted(),
            final(self).offered() == old(self).offered().push(rec),
            go_on == !over_cap(final(self).offered(), old(self).wanted()),
    {
        proof {
            use_type_invariant(&*self);
        }
        let ghost all = self.passed@.push(rec);
        let ghost before = self.passed@;
        let limit = self.limit;
        let mut rest = CappedScan::new(limit);
        std::mem::swap(self, &mut rest);
        let mut results = rest.results;
        let was_full = rest.truncated;
        let full = match limit {
            Some(l) => was_full || results.len() as u64 >= l,
            None => false,
        };
        if full {
            assert(results@ =~= capped(all, limit));
        } else {
            results.push(rec);
            assert(results@ =~= capped(all, limit));
        }
        *self = CappedScan { limit, results, truncated: full, passed: Ghost(all) };
        !full
    }

    /// Offers a record, which counts if it passes the condition. Says whether the
    /// scan goes on.
    pub fn offer_if<T: Fn(&Record, &(String, FilterOp, Value)) -> bool>(
        &mut self,
        filter: &Option<FilterExpr>,
        rec: Record,
        test: &T,
    ) -> (go_on: bool)
        requires
            selection::tests(*test),
            selection::bound(filter::opt_expr_view(*filter)),
        ensures
            final(self).wanted() == old(self).wanted(),
            final(self).offered() == if selection::passes(
                *test,
                filter::opt_expr_view(*filter),
                rec@,
            ) {
                old(self).offered().push(rec)
            } else {
                old(self).offered()
            },
            go_on == (final(self).offered() == old(self).offered() || !over_cap(
                final(self).offered(),
                old(self).wanted(),
            )),
    {
        if selection::record_passes(test, filter, &rec) {
            let ghost before = self.offered();
            let go_on = self.offer(rec);
            assert(self.offered().len() == before.len() + 1);
            go_on
        } else {
            true
        }
    }

    /// The records, and whether there were more than wanted.
    pub fn finish(self) -> (r: (Vec<Record>, bool))
        ensures
            r.0@ == capped(self.offered(), self.wanted()),
            r.1 == over_cap(self.offered(), self.wanted()),
    {
        proof {
            use_type_invariant(&self);
        }
        (self.results, self.truncated)
    }
}

/// The spatial key of the last record of a page whose key has the full length.
pub open spec fn page_tail(s: Seq<(Seq<u8>, Record)>, limit: u64) -> Option<Seq<u8>>
    decreases s.len(),
{
    if s.len() == 0 {
        None
    } else if s.len() <= limit && s.last().0.len() == layout::SPATIAL_KEY_SIZE {
        Some(s.last().0)
    } else {
        page_tail(s.drop_last(), limit)
    }
}

/// The records of entries.
pub open spec fn records_of(s: Seq<(Seq<u8>, Record)>) -> Seq<Record> {
    s.map_values(|e: (Seq<u8>, Record)| e.1)
}

/// A page of a scan.
pub struct PagedScan {
    limit: u64,
    records: Vec<Record>,
    tail: Option<Vec<u8>>,
    has_more: bool,
    passed: Ghost<Seq<(Seq<u8>, Record)>>,
}

impl PagedScan {
    /// How many records a page has.
    pub closed spec fn wanted(&self) -> u64 {
        self.limit
    }

    /// The entries that passed, as far as they were offered.
    pub closed spec fn offered(&self) -> Seq<(Seq<u8>, Record)> {
        self.passed@
    }

    #[verifier::type_invariant]
    spec fn wf(&self) -> bool {
        &&& self.records@ == capped(records_of(self.passed@), Some(self.limit))
        &&& crate::ghost_ops::opt_bytes(self.tail) == page_tail(self.passed@, self.limit)
        &&& self.has_more == over_cap(self.passed@, Some(self.limit))
    }

    /// No record yet.
    pub fn new(limit: u64) -> (r: Self)
        ensures
            r.wanted() == limit,
            r.offered() == Seq::<(Seq<u8>, Record)>::empty(),
    {
        let records: Vec<Record> = Vec::new();
        assert(records@ =~= capped(records_of(Seq::empty()), Some(limit)));
        PagedScan { limit, records, tail: None, has_more: false, passed: Ghost(Seq::empty()) }
    }

    /// Offers an entry that passed. Says whether the scan goes on: it stops at
    /// the first entry after the page.
    pub fn offer(&mut self, key: Vec<u8>, rec: Record) -> (go_on: bool)
        ensures
            final(self).wanted() == old(self).wanted(),
            final(self).offered() == old(self).offered().push((key@, rec)),
            go_on == !over_cap(final(self).offered(), Some(old(self).wanted())),
    {
        proof {
            use_type_invariant(&*self);
        }
        let ghost before = self.passed@;
        let ghost all = before.push((key@, rec));
        let limit: u64 = self.limit;
        let mut rest = PagedScan::new(limit);
        std::mem::swap(self, &mut rest);
        let mut records = rest.records;
        let mut tail = rest.tail;
        let full = rest.has_more || records.len() as u64 >= limit;
        assert(all.drop_last() =~= before);
        assert(records_of(all) =~= records_of(before).push(rec));
        if full {
            assert(records@ =~= capped(records_of(all), Some(limit)));
        } else {
            if key.len() == layout::SPATIAL_KEY_SIZE {
                tail = Some(key);
            }
            records.push(rec);
            assert(records@ =~= capped(records_of(all), Some(limit)));
        }
        *self = PagedScan { limit, records, tail, has_more: full, passed: Ghost(all) };
        !full
    }

    /// Offers an entry, which counts if its record passes the condition. Says
    /// whether the scan goes on.
    pub fn offer_if<T: Fn(&Record, &(String, FilterOp, Value)) -> bool>(
        &mut self,
        filter: &Option<FilterExpr>,
        key: Vec<u8>,
        rec: Record,
        test: &T,
    ) -> (go_on: bool)
        requires
            selection::tests(*test),
            selection::bound(filter::opt_expr_view(*filter)),
        ensures
            final(self).wanted() == old(self).wanted(),
            final(self).offered() == if selection::passes(
                *test,
                filter::opt_expr_view(*filter),
                rec@,
            ) {
                old(self).offered().push((key@, rec))
            } else {
                old(self).offered()
            },
            go_on == (final(self).offered() == old(self).offered() || !over_cap(
                final(self).offered(),
                Some(old(self).wanted()),
            )),
    {
        if selection::record_passes(test, filter, &rec) {
            let ghost before = self.offered();
            let go_on = self.offer(key, rec);
            assert(self.offered().len() == before.len() + 1);
            go_on
        } else {
            true
        }
    }

    /// The records of the page, the key after which the next one begins, and
    /// whether there is more.
    pub fn finish(self) -> (r: (Vec<Record>, Option<Vec<u8>>, bool))
        ensures
            r.0@ == capped(records_of(self.offered()), Some(self.wanted())),
            crate::ghost_ops::opt_bytes(r.1) == page_tail(self.offered(), self.wanted()),
            r.2 == over_cap(self.offered(), Some(self.wanted())),
    {
        proof {
            use_type_invariant(&self);
        }
        (self.records, self.tail, self.has_more)
    }
}

/// The key of the next page's cursor, if there is a next page.
pub fn next_page(tail: Option<Vec<u8>>, has_more: bool, problem: &str) -> (r: Result<
    Option<Vec<u8>>,
    XyzError,
>)
    ensures
        if !has_more {
            r == Ok::<Option<Vec<u8>>, XyzError>(None)
        } else {
            match tail {
                Some(k) => r == Ok::<Option<Vec<u8>>, XyzError>(Some(k)),
                None => r matches Err(XyzError::Internal(m)) && m@ == problem@,
            }
        },
{
    if !has_more {
        return Ok(None);
    }
    match tail {
        Some(k) => Ok(Some(k)),
        None => Err(XyzError::Internal(problem.to_owned())),
    }
}

/// The first key that a resumed scan may read.
pub open spec fn resume_key(tail: Seq<u8>) -> Seq<u8> {
    tail.push(0)
}

/// The first key that a resumed scan may read.
pub fn make_resume_key(tail: &[u8]) -> (r: Vec<u8>)
    ensures
        r@ == resume_key(tail@),
{
    let mut r = bytes::sub_bytes(tail, 0, tail.len());
    assert(r@ =~= tail@);
    r.push(0);
    r
}

/// A resumed scan reads exactly the keys after the last one of the page.
pub proof fn law_resume_reads_what_follows(tail: Seq<u8>, k: Seq<u8>)
    ensures
        bytes::lex_le(resume_key(tail), k) <==> bytes::lex_lt(tail, k),
{
    let s = resume_key(tail);
    let n = tail.len() as int;
    if bytes::lex_lt(tail, k) {
        let i = choose|i: int| bytes::lex_split(tail, k, i);
        if i < n {
            assert(bytes::lex_split(s, k, i));
        } else {
            assert forall|j: int| 0 <= j < n implies s[j] == k[j] by {
                assert(tail[j] == k[j]);
            }
            if k[n] > 0 {
                assert(bytes::lex_split(s, k, n));
            } else if k.len() == n + 1 {
                assert(s =~= k);
            } else {
                assert(bytes::lex_split(s, k, n + 1));
            }
        }
    }
    if bytes::lex_lt(s, k) {
        let i = choose|i: int| bytes::lex_split(s, k, i);
        if i < n {
            assert(bytes::lex_split(tail, k, i));
        } else {
            assert forall|j: int| 0 <= j < n implies tail[j] == k[j] by {
                assert(s[j] == k[j]);
            }
            assert(bytes::lex_split(tail, k, n));
        }
    }
    if s == k {
        assert(bytes::lex_split(tail, k, n));
    }
}

/// Entries in the order of a scan: every key has the full length, and each comes
/// before the next.
pub open spec fn scan_order(s: Seq<(Seq<u8>, Record)>) -> bool {
    &&& forall|i: int|
        0 <= i < s.len() ==> (#[trigger] s[i]).0.len() == layout::SPATIAL_KEY_SIZE
    &&& forall|i: int, j: int|
        0 <= i < j < s.len() ==> bytes::lex_lt((#[trigger] s[i]).0, (#[trigger] s[j]).0)
}

/// The entries that are kept, in their order.
pub open spec fn entries_kept(
    s: Seq<(Seq<u8>, Record)>,
    keep: spec_fn((Seq<u8>, Record)) -> bool,
) -> Seq<(Seq<u8>, Record)>
    decreases s.len(),
{
    if s.len() == 0 {
        Seq::empty()
    } else if keep(s.last()) {
        entries_kept(s.drop_last(), keep).push(s.last())
    } else {
        entries_kept(s.drop_last(), keep)
    }
}

/// The entries whose records pass.
pub open spec fn matching(s: Seq<(Seq<u8>, Record)>, pass: spec_fn(RecordV) -> bool) -> Seq<
    (Seq<u8>, Record),
> {
    entries_kept(s, |e: (Seq<u8>, Record)| pass(e.1@))
}

/// A scan that resumes after a key reads the other one; without a key it reads
/// all.
pub open spec fn read_after(cursor: Option<Seq<u8>>, k: Seq<u8>) -> bool {
    cursor matches Some(t) ==> bytes::lex_le(resume_key(t), k)
}

/// What a page is made from: the entries after the cursor whose records pass.
pub open spec fn page_entries(
    s: Seq<(Seq<u8>, Record)>,
    pass: spec_fn(RecordV) -> bool,
    cursor: Option<Seq<u8>>,
) -> Seq<(Seq<u8>, Record)> {
    entries_kept(s, |e: (Seq<u8>, Record)| read_after(cursor, e.0) && pass(e.1@))
}

/// The cursor of the page with number `n`, where each page gives that of the next.
pub open spec fn cursor_at(
    s: Seq<(Seq<u8>, Record)>,
    pass: spec_fn(RecordV) -> bool,
    limit: u64,
    n: nat,
) -> Option<Seq<u8>>
    decreases n,
{
    if n == 0 {
        None
    } else {
        let before = cursor_at(s, pass, limit, (n - 1) as nat);
        page_tail(page_entries(s, pass, before), limit)
    }
}

/// The entries from which the page with number `n` is made.
pub open spec fn nth_page(
    s: Seq<(Seq<u8>, Record)>,
    pass: spec_fn(RecordV) -> bool,
    limit: u64,
    n: nat,
) -> Seq<(Seq<u8>, Record)> {
    page_entries(s, pass, cursor_at(s, pass, limit, n))
}

/// The records of the first `n` pages, one page after the other.
pub open spec fn first_pages(
    s: Seq<(Seq<u8>, Record)>,
    pass: spec_fn(RecordV) -> bool,
    limit: u64,
    n: nat,
) -> Seq<Record>
    decreases n,
{
    if n == 0 {
        Seq::empty()
    } else {
        first_pages(s, pass, limit, (n - 1) as nat) + capped(
            records_of(nth_page(s, pass, limit, (n - 1) as nat)),
            Some(limit),
        )
    }
}

/// The entries that can be looked at before a page is done say what it is: once
/// one more than the page has passed, what follows changes nothing.
pub proof fn law_page_needs_one_more(s: Seq<(Seq<u8>, Record)>, limit: u64, k: int)
    requires
        limit < k <= s.len(),
    ensures
        capped(records_of(s.take(k)), Some(limit)) == capped(records_of(s), Some(limit)),
        page_tail(s.take(k), limit) == page_tail(s, limit),
        over_cap(s.take(k), Some(limit)) == over_cap(s, Some(limit)),
    decreases s.len(),
{
    assert(capped(records_of(s.take(k)), Some(limit)) =~= capped(records_of(s), Some(limit)));
    if k < s.len() {
        let d = s.drop_last();
        law_page_needs_one_more(d, limit, k);
        assert(d.take(k) =~= s.take(k));
    } else {
        assert(s.take(k) =~= s);
    }
}

/// The pages of a scan are the scan, where nothing is written meanwhile. As long as
/// there is a page with number `n`: it is made from what is left of the matching
/// entries after `n` full pages; it says that there is more exactly where another
/// entry that matches lies past it, and has then as many records as a page has; and
/// the pages up to it hold the records that match, each once and in order, all of
/// them where it is the last.
pub proof fn law_pages_make_the_scan(
    s: Seq<(Seq<u8>, Record)>,
    pass: spec_fn(RecordV) -> bool,
    limit: u64,
    n: nat,
)
    requires
        0 < limit,
        scan_order(s),
        n == 0 || n * limit < matching(s, pass).len(),
    ensures
        ({
            let m = matching(s, pass);
            let p = nth_page(s, pass, limit, n);
            &&& p == m.skip(n * limit)
            &&& over_cap(p, Some(limit)) <==> (n + 1) * limit < m.len()
            &&& over_cap(p, Some(limit)) ==> capped(records_of(p), Some(limit)).len() == limit
            &&& over_cap(p, Some(limit)) ==> page_tail(p, limit) == Some(
                m[(n + 1) * limit - 1].0,
            )
            &&& first_pages(s, pass, limit, n) == records_of(m).take(n * limit)
            &&& !over_cap(p, Some(limit)) ==> first_pages(s, pass, limit, n + 1) == records_of(m)
        }),
    decreases n,
{
    let m = matching(s, pass);
    let p = nth_page(s, pass, limit, n);
    let by_pass = |e: (Seq<u8>, Record)| pass(e.1@);
    lemma_kept_in_scan_order(s, by_pass);
    let cursor = cursor_at(s, pass, limit, n);
    if n == 0 {
        assert(cursor is None);
        lemma_entries_kept_agree(
            s,
            |e: (Seq<u8>, Record)| read_after(cursor, e.0) && pass(e.1@),
            by_pass,
        );
        assert(m.skip(0) =~= m);
        assert(n * limit == 0);
        assert(records_of(m).take(0) =~= Seq::<Record>::empty());
    } else {
        let b = (n - 1) as nat;
        assert(b * limit + limit == n * limit) by (nonlinear_arith)
            requires
                b == n - 1,
        ;
        assert(b * limit >= 0) by (nonlinear_arith)
            requires
                b >= 0,
        ;
        law_pages_make_the_scan(s, pass, limit, b);
        let q = nth_page(s, pass, limit, b);
        assert(over_cap(q, Some(limit)));
        assert(n == b + 1);
        assert(cursor == Some(m[n * limit - 1].0));
        let t = m[n * limit - 1].0;
        let after = |e: (Seq<u8>, Record)| read_after(cursor, e.0);
        lemma_entries_kept_twice(s, by_pass, after);
        lemma_entries_kept_agree(
            s,
            |e: (Seq<u8>, Record)| read_after(cursor, e.0) && pass(e.1@),
            |e: (Seq<u8>, Record)| after(e) && by_pass(e),
        );
        assert forall|i: int| 0 <= i < m.len() implies (after(#[trigger] m[i]) <==> n * limit
            <= i) by {
            law_resume_reads_what_follows(t, m[i].0);
            if i < n * limit - 1 {
                bytes::lemma_lex_asymmetric(m[i].0, m[n * limit - 1].0);
            } else if i == n * limit - 1 {
                bytes::lemma_lex_irreflexive(m[i].0);
            }
        }
        lemma_entries_kept_suffix(m, after, n * limit);
        assert(records_of(m).take(n * limit) =~= records_of(m).take(b * limit) + capped(
            records_of(m.skip(b * limit)),
            Some(limit),
        ));
    }
    assert((n + 1) * limit == n * limit + limit) by (nonlinear_arith);
    if over_cap(p, Some(limit)) {
        assert forall|i: int| 0 <= i < p.len() implies (#[trigger] p[i]).0.len()
            == layout::SPATIAL_KEY_SIZE by {
            assert(p[i] == m[n * limit + i]);
        }
        lemma_page_tail(p, limit);
        assert(p[limit - 1] == m[n * limit + limit - 1]);
    } else {
        let more = (n + 1) as nat;
        assert((more - 1) as nat == n);
        assert(first_pages(s, pass, limit, more) == first_pages(s, pass, limit, n) + capped(
            records_of(nth_page(s, pass, limit, n)),
            Some(limit),
        ));
        assert(p.len() <= limit);
        assert(capped(records_of(p), Some(limit)) == records_of(p));
        assert(records_of(m).take(n * limit) + records_of(m.skip(n * limit)) =~= records_of(m));
    }
}

proof fn lemma_entries_kept_agree(
    s: Seq<(Seq<u8>, Record)>,
    a: spec_fn((Seq<u8>, Record)) -> bool,
    b: spec_fn((Seq<u8>, Record)) -> bool,
)
    requires
        forall|e: (Seq<u8>, Record)| #[trigger] a(e) == b(e),
    ensures
        entries_kept(s, a) == entries_kept(s, b),
    decreases s.len(),
{
    if s.len() > 0 {
        lemma_entries_kept_agree(s.drop_last(), a, b);
        assert(a(s.last()) == b(s.last()));
    }
}

proof fn lemma_entries_kept_twice(
    s: Seq<(Seq<u8>, Record)>,
    first: spec_fn((Seq<u8>, Record)) -> bool,
    second: spec_fn((Seq<u8>, Record)) -> bool,
)
    ensures
        entries_kept(s, |e: (Seq<u8>, Record)| second(e) && first(e)) == entries_kept(
            entries_kept(s, first),
            second,
        ),
    decreases s.len(),
{
    if s.len() > 0 {
        let d = s.drop_last();
        lemma_entries_kept_twice(d, first, second);
        if first(s.last()) {
            let k = entries_kept(s, first);
            assert(k.drop_last() =~= entries_kept(d, first));
            assert(k.last() == s.last());
        }
    }
}

proof fn lemma_entries_kept_suffix(
    s: Seq<(Seq<u8>, Record)>,
    keep: spec_fn((Seq<u8>, Record)) -> bool,
    c: int,
)
    requires
        0 <= c <= s.len(),
        forall|i: int| 0 <= i < s.len() ==> (keep(#[trigger] s[i]) <==> c <= i),
    ensures
        entries_kept(s, keep) == s.skip(c),
    decreases s.len(),
{
    if s.len() > 0 {
        let d = s.drop_last();
        assert(keep(s[s.len() - 1]) <==> c <= s.len() - 1);
        assert forall|i: int| 0 <= i < d.len() implies (keep(#[trigger] d[i]) <==> c <= i) by {
            assert(d[i] == s[i]);
        }
        if c < s.len() {
            lemma_entries_kept_suffix(d, keep, c);
            assert(d.skip(c).push(s.last()) =~= s.skip(c));
        } else {
            lemma_entries_kept_suffix(d, keep, c - 1);
            assert(d.skip(c - 1) =~= s.skip(c));
        }
    } else {
        assert(s.skip(c) =~= entries_kept(s, keep));
    }
}

proof fn lemma_kept_in_scan_order(
    s: Seq<(Seq<u8>, Record)>,
    keep: spec_fn((Seq<u8>, Record)) -> bool,
)
    requires
        scan_order(s),
    ensures
        scan_order(entries_kept(s, keep)),
        forall|i: int|
            0 <= i < entries_kept(s, keep).len() ==> s.contains(
                #[trigger] entries_kept(s, keep)[i],
            ),
    decreases s.len(),
{
    if s.len() > 0 {
        let d = s.drop_last();
        let k = entries_kept(s, keep);
        let q = entries_kept(d, keep);
        assert(scan_order(d)) by {
            assert forall|i: int| 0 <= i < d.len() implies (#[trigger] d[i]).0.len()
                == layout::SPATIAL_KEY_SIZE by {
                assert(d[i] == s[i]);
            }
            assert forall|i: int, j: int| 0 <= i < j < d.len() implies bytes::lex_lt(
                (#[trigger] d[i]).0,
                (#[trigger] d[j]).0,
            ) by {
                assert(d[i] == s[i] && d[j] == s[j]);
            }
        }
        lemma_kept_in_scan_order(d, keep);
        assert forall|i: int| 0 <= i < k.len() implies s.contains(#[trigger] k[i]) by {
            if i < q.len() {
                assert(k[i] == q[i]);
                let w = choose|w: int| 0 <= w < d.len() && d[w] == q[i];
                assert(s[w] == k[i]);
            } else {
                assert(s[s.len() - 1] == k[i]);
            }
        }
        assert forall|i: int| 0 <= i < k.len() implies (#[trigger] k[i]).0.len()
            == layout::SPATIAL_KEY_SIZE by {
            let w = choose|w: int| 0 <= w < s.len() && s[w] == k[i];
            assert(s[w].0.len() == layout::SPATIAL_KEY_SIZE);
        }
        assert forall|i: int, j: int| 0 <= i < j < k.len() implies bytes::lex_lt(
            (#[trigger] k[i]).0,
            (#[trigger] k[j]).0,
        ) by {
            assert(k[i] == q[i]);
            if j < q.len() {
                assert(k[j] == q[j]);
            } else {
                let w = choose|w: int| 0 <= w < d.len() && d[w] == q[i];
                assert(s[w] == k[i] && s[s.len() - 1] == k[j]);
            }
        }
    }
}

proof fn lemma_page_tail(s: Seq<(Seq<u8>, Record)>, limit: u64)
    requires
        0 < limit <= s.len(),
        forall|i: int| 0 <= i < s.len() ==> (#[trigger] s[i]).0.len() == layout::SPATIAL_KEY_SIZE,
    ensures
        page_tail(s, limit) == Some(s[limit - 1].0),
    decreases s.len(),
{
    if s.len() > limit {
        let d = s.drop_last();
        assert forall|i: int| 0 <= i < d.len() implies (#[trigger] d[i]).0.len()
            == layout::SPATIAL_KEY_SIZE by {
            assert(d[i] == s[i]);
        }
        lemma_page_tail(d, limit);
    } else {
        assert(s[s.len() - 1].0.len() == layout::SPATIAL_KEY_SIZE);
    }
}

/// A record with the value that it is ordered by.
pub struct Sortable {
    pub sort_val: Option<Value>,
    pub rec: Record,
}

/// The record comes before the other in the order.
pub open spec fn comes_before(a: Sortable, b: Sortable, descending: bool) -> bool {
    let x = value::opt_view(a.sort_val);
    let y = value::opt_view(b.sort_val);
    if descending {
        value::opt_sorts_before(y, x)
    } else {
        value::opt_sorts_before(x, y)
    }
}

/// The records with another one put before those that it comes before.
pub open spec fn put_in_order(s: Seq<Sortable>, x: Sortable, descending: bool) -> Seq<Sortable>
    decreases s.len(),
{
    if s.len() == 0 {
        seq![x]
    } else if comes_before(x, s.last(), descending) {
        put_in_order(s.drop_last(), x, descending).push(s.last())
    } else {
        s.push(x)
    }
}

/// The first `n` records in the order, of those offered one after the other;
/// records that are not ordered stay as they come.
pub open spec fn kept_in_order(s: Seq<Sortable>, n: nat, descending: bool) -> Seq<Sortable>
    decreases s.len(),
{
    if s.len() == 0 {
        Seq::empty()
    } else {
        let t = put_in_order(kept_in_order(s.drop_last(), n, descending), s.last(), descending);
        if t.len() > n {
            t.take(n as int)
        } else {
            t
        }
    }
}

/// The first records of a scan in an order.
pub struct OrderedScan {
    limit: usize,
    descending: bool,
    items: Vec<Sortable>,
    passed: Ghost<Seq<Sortable>>,
}

impl OrderedScan {
    /// How many records are wanted.
    pub closed spec fn wanted(&self) -> usize {
        self.limit
    }

    /// The order goes down.
    pub closed spec fn goes_down(&self) -> bool {
        self.descending
    }

    /// The records that passed.
    pub closed spec fn offered(&self) -> Seq<Sortable> {
        self.passed@
    }

    #[verifier::type_invariant]
    spec fn wf(&self) -> bool {
        self.items@ == kept_in_order(self.passed@, self.limit as nat, self.descending)
    }

    /// No record yet.
    pub fn new(limit: usize, descending: bool) -> (r: Self)
        ensures
            r.wanted() == limit,
            r.goes_down() == descending,
            r.offered() == Seq::<Sortable>::empty(),
    {
        OrderedScan { limit, descending, items: Vec::new(), passed: Ghost(Seq::empty()) }
    }

    /// Offers a record that passed, with the value that it is ordered by.
    pub fn offer(&mut self, sort_val: Option<Value>, rec: Record)
        ensures
            final(self).wanted() == old(self).wanted(),
            final(self).goes_down() == old(self).goes_down(),
            final(self).offered() == old(self).offered().push((Sortable { sort_val, rec })),
    {
        proof {
            use_type_invariant(&*self);
        }
        let x = Sortable { sort_val, rec };
        let ghost xv = x;
        let ghost all = self.passed@.push(xv);
        let ghost before = self.passed@;
        let limit: usize = self.limit;
        let descending = self.descending;
        let mut rest = OrderedScan::new(limit, descending);
        std::mem::swap(self, &mut rest);
        let mut items = rest.items;
        let ghost was = items@;
        let mut p: usize = items.len();
        while p > 0 && is_before(&x, &items[p - 1], descending)
            invariant
                p <= items@.len(),
                x == xv,
                items@ == was,
                forall|j: int|
                    p <= j < was.len() ==> comes_before(xv, #[trigger] was[j], descending),
            decreases p,
        {
            p = p - 1;
        }
        proof {
            assert(p > 0 ==> !comes_before(xv, was[p - 1], descending));
            lemma_place_in_order(was, xv, p as int, descending);
            assert(all.drop_last() =~= before);
        }
        items.insert(p, x);
        assert(items@ =~= put_in_order(was, xv, descending));
        if items.len() > limit {
            let ghost whole = items@;
            items.truncate(limit);
            assert(items@ =~= whole.take(limit as int));
        }
        *self = OrderedScan { limit, descending, items, passed: Ghost(all) };
    }

    /// Offers a record with the value that it is ordered by; it counts if it passes
    /// the condition.
    pub fn offer_if<T: Fn(&Record, &(String, FilterOp, Value)) -> bool>(
        &mut self,
        filter: &Option<FilterExpr>,
        sort_val: Option<Value>,
        rec: Record,
        test: &T,
    )
        requires
            selection::tests(*test),
            selection::bound(filter::opt_expr_view(*filter)),
        ensures
            final(self).wanted() == old(self).wanted(),
            final(self).goes_down() == old(self).goes_down(),
            final(self).offered() == if selection::passes(
                *test,
                filter::opt_expr_view(*filter),
                rec@,
            ) {
                old(self).offered().push((Sortable { sort_val, rec }))
            } else {
                old(self).offered()
            },
    {
        if selection::record_passes(test, filter, &rec) {
            self.offer(sort_val, rec);
        }
    }

    /// The records in the order.
    pub fn finish(self) -> (r: Vec<Record>)
        ensures
            r@ == sorted_records(
                kept_in_order(self.offered(), self.wanted() as nat, self.goes_down()),
            ),
    {
        proof {
            use_type_invariant(&self);
        }
        let ghost all = self.items@;
        let mut todo = crate::sort::reversed(self.items);
        let mut r: Vec<Record> = Vec::new();
        while todo.len() > 0
            invariant
                r@.len() + todo@.len() == all.len(),
                forall|j: int|
                    0 <= j < todo@.len() ==> #[trigger] todo@[j] == all[all.len() - 1 - j],
                forall|j: int| 0 <= j < r@.len() ==> #[trigger] r@[j] == all[j].rec,
            decreases todo@.len(),
        {
            if let Some(x) = todo.pop() {
                r.push(x.rec);
            }
        }
        assert(r@ =~= sorted_records(all));
        r
    }
}

/// The records without the values that they are ordered by.
pub open spec fn sorted_records(s: Seq<Sortable>) -> Seq<Record> {
    s.map_values(|x: Sortable| x.rec)
}

/// Whether the record comes before the other in the order.
fn is_before(a: &Sortable, b: &Sortable, descending: bool) -> (r: bool)
    ensures
        r == comes_before(*a, *b, descending),
{
    let c = if descending {
        value::compare_values(&b.sort_val, &a.sort_val)
    } else {
        value::compare_values(&a.sort_val, &b.sort_val)
    };
    match c {
        Compared::Before => true,
        _ => false,
    }
}

proof fn lemma_place_in_order(s: Seq<Sortable>, x: Sortable, p: int, descending: bool)
    requires
        0 <= p <= s.len(),
        forall|j: int| p <= j < s.len() ==> comes_before(x, #[trigger] s[j], descending),
        p > 0 ==> !comes_before(x, s[p - 1], descending),
    ensures
        put_in_order(s, x, descending) == s.insert(p, x),
    decreases s.len(),
{
    if s.len() == 0 {
        assert(s.insert(p, x) =~= seq![x]);
    } else if p == s.len() {
        assert(s.insert(p, x) =~= s.push(x));
    } else {
        assert(comes_before(x, s[s.len() - 1], descending));
        lemma_place_in_order(s.drop_last(), x, p, descending);
        assert(s.insert(p, x) =~= s.drop_last().insert(p, x).push(s.last()));
    }
}

/// Among these records the order is one: of two, not both come before the
/// other, and what comes before the second of two comes before the first or
/// after it in between.
pub open spec fn orders(s: Seq<Sortable>, descending: bool) -> bool {
    &&& forall|a: Sortable, b: Sortable|
        #![trigger s.contains(a), s.contains(b)]
        s.contains(a) && s.contains(b) && comes_before(a, b, descending) ==> !comes_before(
            b,
            a,
            descending,
        )
    &&& forall|a: Sortable, b: Sortable, c: Sortable|
        #![trigger s.contains(a), s.contains(b), s.contains(c)]
        s.contains(a) && s.contains(b) && s.contains(c) && comes_before(a, c, descending)
            ==> comes_before(a, b, descending) || comes_before(b, c, descending)
}

/// No record comes after one that it comes before.
pub open spec fn lies_in_order(s: Seq<Sortable>, descending: bool) -> bool {
    forall|i: int, j: int|
        0 <= i < j < s.len() ==> !comes_before(#[trigger] s[j], #[trigger] s[i], descending)
}

proof fn lemma_put_in_order(s: Seq<Sortable>, x: Sortable, descending: bool)
    ensures
        put_in_order(s, x, descending).len() == s.len() + 1,
        forall|y: Sortable| #[trigger]
            put_in_order(s, x, descending).contains(y) <==> (s.contains(y) || y == x),
    decreases s.len(),
{
    let r = put_in_order(s, x, descending);
    if s.len() == 0 {
        assert(r[0] == x);
    } else if comes_before(x, s.last(), descending) {
        let d = s.drop_last();
        lemma_put_in_order(d, x, descending);
        let q = put_in_order(d, x, descending);
        assert forall|y: Sortable| #[trigger] r.contains(y) <==> (s.contains(y) || y == x) by {
            if r.contains(y) {
                let i = choose|i: int| 0 <= i < r.len() && r[i] == y;
                if i < q.len() {
                    assert(q[i] == y);
                    assert(q.contains(y));
                    if d.contains(y) {
                        let j = choose|j: int| 0 <= j < d.len() && d[j] == y;
                        assert(s[j] == y);
                    }
                } else {
                    assert(s[s.len() - 1] == y);
                }
            }
            if s.contains(y) || y == x {
                if s.contains(y) {
                    let j = choose|j: int| 0 <= j < s.len() && s[j] == y;
                    if j < d.len() {
                        assert(d[j] == y);
                        assert(q.contains(y));
                        let i = choose|i: int| 0 <= i < q.len() && q[i] == y;
                        assert(r[i] == y);
                    } else {
                        assert(r[r.len() - 1] == y);
                    }
                } else {
                    assert(q.contains(x));
                    let i = choose|i: int| 0 <= i < q.len() && q[i] == y;
                    assert(r[i] == y);
                }
            }
        }
    } else {
        assert forall|y: Sortable| #[trigger] r.contains(y) <==> (s.contains(y) || y == x) by {
            if s.contains(y) {
                let j = choose|j: int| 0 <= j < s.len() && s[j] == y;
                assert(r[j] == y);
            }
            if y == x {
                assert(r[r.len() - 1] == y);
            }
        }
    }
}

proof fn lemma_put_keeps_order(
    s: Seq<Sortable>,
    x: Sortable,
    all: Seq<Sortable>,
    descending: bool,
)
    requires
        orders(all, descending),
        all.contains(x),
        forall|i: int| 0 <= i < s.len() ==> all.contains(#[trigger] s[i]),
        lies_in_order(s, descending),
    ensures
        lies_in_order(put_in_order(s, x, descending), descending),
    decreases s.len(),
{
    let r = put_in_order(s, x, descending);
    lemma_put_in_order(s, x, descending);
    if s.len() == 0 {
    } else if comes_before(x, s.last(), descending) {
        let d = s.drop_last();
        assert(lies_in_order(d, descending)) by {
            assert forall|i: int, j: int| 0 <= i < j < d.len() implies !comes_before(
                #[trigger] d[j],
                #[trigger] d[i],
                descending,
            ) by {
                assert(s[i] == d[i] && s[j] == d[j]);
            }
        }
        assert forall|i: int| 0 <= i < d.len() implies all.contains(#[trigger] d[i]) by {
            assert(s[i] == d[i]);
        }
        lemma_put_keeps_order(d, x, all, descending);
        lemma_put_in_order(d, x, descending);
        let q = put_in_order(d, x, descending);
        assert forall|i: int, j: int| 0 <= i < j < r.len() implies !comes_before(
            #[trigger] r[j],
            #[trigger] r[i],
            descending,
        ) by {
            if j < q.len() {
                assert(q[i] == r[i] && q[j] == r[j]);
            } else {
                assert(r[i] == q[i]);
                assert(q.contains(q[i]));
                let l = s[s.len() - 1];
                assert(all.contains(l) && all.contains(x));
                if d.contains(q[i]) {
                    let m = choose|m: int| 0 <= m < d.len() && d[m] == q[i];
                    assert(s[m] == q[i]);
                    assert(!comes_before(l, s[m], descending));
                }
            }
        }
    } else {
        assert forall|i: int, j: int| 0 <= i < j < r.len() implies !comes_before(
            #[trigger] r[j],
            #[trigger] r[i],
            descending,
        ) by {
            if j < s.len() {
                assert(s[i] == r[i] && s[j] == r[j]);
            } else {
                let l = s[s.len() - 1];
                assert(all.contains(l) && all.contains(s[i]) && all.contains(x));
                if i < s.len() - 1 {
                    assert(!comes_before(l, s[i], descending));
                }
            }
        }
    }
}

/// The records that an ordered scan keeps are records offered, as many as
/// wanted or as there are, in order, and no other one offered comes before any
/// of them.
pub proof fn law_ordered_scan_keeps_first(s: Seq<Sortable>, n: nat, descending: bool)
    requires
        orders(s, descending),
    ensures
        ({
            let k = kept_in_order(s, n, descending);
            &&& k.len() == if s.len() < n {
                s.len()
            } else {
                n
            }
            &&& lies_in_order(k, descending)
            &&& forall|j: int| 0 <= j < k.len() ==> s.contains(#[trigger] k[j])
            &&& forall|i: int, j: int|
                0 <= i < s.len() && 0 <= j < k.len() && !k.contains(s[i]) ==> !comes_before(
                    #[trigger] s[i],
                    #[trigger] k[j],
                    descending,
                )
        }),
{
    lemma_kept(s, s, n, descending);
}

/// Every record that a scan answers with passes its condition, and where it was not
/// cut short no record that passes is missing.
pub proof fn law_answers_pass<T: Fn(&Record, &(String, FilterOp, Value)) -> bool>(
    test: T,
    f: Option<FilterExprV>,
    s: Seq<Record>,
    limit: Option<u64>,
)
    ensures
        ({
            let answer = capped(selection::selected(test, f, s), limit);
            &&& forall|i: int|
                0 <= i < answer.len() ==> selection::passes(test, f, (#[trigger] answer[i])@)
                    && s.contains(answer[i])
            &&& !over_cap(selection::selected(test, f, s), limit) ==> forall|i: int|
                0 <= i < s.len() && selection::passes(test, f, (#[trigger] s[i])@)
                    ==> answer.contains(s[i])
        }),
{
    selection::law_selected_pass(test, f, s);
    let all = selection::selected(test, f, s);
    let answer = capped(all, limit);
    assert forall|i: int| 0 <= i < answer.len() implies selection::passes(
        test,
        f,
        (#[trigger] answer[i])@,
    ) && s.contains(answer[i]) by {
        assert(answer[i] == all[i]);
    }
}

/// Every record that an ordered scan answers with passes the condition, where only
/// records that pass were offered.
pub proof fn law_ordered_answers_pass<T: Fn(&Record, &(String, FilterOp, Value)) -> bool>(
    test: T,
    f: Option<FilterExprV>,
    s: Seq<Sortable>,
    n: nat,
    descending: bool,
)
    requires
        forall|i: int| 0 <= i < s.len() ==> selection::passes(test, f, (#[trigger] s[i]).rec@),
    ensures
        forall|j: int|
            0 <= j < kept_in_order(s, n, descending).len() ==> selection::passes(
                test,
                f,
                (#[trigger] sorted_records(kept_in_order(s, n, descending))[j])@,
            ),
{
    lemma_kept_were_offered(s, n, descending);
    let k = kept_in_order(s, n, descending);
    assert forall|j: int| 0 <= j < k.len() implies selection::passes(
        test,
        f,
        (#[trigger] sorted_records(k)[j])@,
    ) by {
        assert(sorted_records(k)[j] == k[j].rec);
        assert(s.contains(k[j]));
        let i = choose|i: int| 0 <= i < s.len() && s[i] == k[j];
        assert(selection::passes(test, f, s[i].rec@));
    }
}

proof fn lemma_kept_were_offered(s: Seq<Sortable>, n: nat, descending: bool)
    ensures
        forall|j: int|
            0 <= j < kept_in_order(s, n, descending).len() ==> s.contains(
                #[trigger] kept_in_order(s, n, descending)[j],
            ),
    decreases s.len(),
{
    if s.len() > 0 {
        let d = s.drop_last();
        lemma_kept_were_offered(d, n, descending);
        let k0 = kept_in_order(d, n, descending);
        let t = put_in_order(k0, s.last(), descending);
        let k = kept_in_order(s, n, descending);
        lemma_put_in_order(k0, s.last(), descending);
        assert forall|j: int| 0 <= j < k.len() implies s.contains(#[trigger] k[j]) by {
            assert(t[j] == k[j]);
            assert(t.contains(t[j]));
            if k0.contains(t[j]) {
                let m = choose|m: int| 0 <= m < k0.len() && k0[m] == t[j];
                assert(d.contains(k0[m]));
                let w = choose|w: int| 0 <= w < d.len() && d[w] == k0[m];
                assert(s[w] == t[j]);
            } else {
                assert(s[s.len() - 1] == t[j]);
            }
        }
    }
}

proof fn lemma_kept(s: Seq<Sortable>, all: Seq<Sortable>, n: nat, descending: bool)
    requires
        orders(all, descending),
        forall|i: int| 0 <= i < s.len() ==> all.contains(#[trigger] s[i]),
    ensures
        ({
            let k = kept_in_order(s, n, descending);
            &&& k.len() == if s.len() < n {
                s.len()
            } else {
                n
            }
            &&& lies_in_order(k, descending)
            &&& forall|j: int| 0 <= j < k.len() ==> s.contains(#[trigger] k[j])
            &&& s.len() <= n ==> forall|i: int| 0 <= i < s.len() ==> k.contains(#[trigger] s[i])
            &&& forall|i: int, j: int|
                0 <= i < s.len() && 0 <= j < k.len() && !k.contains(s[i]) ==> !comes_before(
                    #[trigger] s[i],
                    #[trigger] k[j],
                    descending,
                )
        }),
    decreases s.len(),
{
    if s.len() > 0 {
        let d = s.drop_last();
        let x = s.last();
        assert(s[s.len() - 1] == x);
        assert forall|i: int| 0 <= i < d.len() implies all.contains(#[trigger] d[i]) by {
            assert(s[i] == d[i]);
        }
        lemma_kept(d, all, n, descending);
        let k0 = kept_in_order(d, n, descending);
        let t = put_in_order(k0, x, descending);
        let k = kept_in_order(s, n, descending);
        assert forall|i: int| 0 <= i < k0.len() implies all.contains(#[trigger] k0[i]) by {
            assert(d.contains(k0[i]));
            let m = choose|m: int| 0 <= m < d.len() && d[m] == k0[i];
            assert(all.contains(d[m]));
        }
        lemma_put_in_order(k0, x, descending);
        lemma_put_keeps_order(k0, x, all, descending);
        assert forall|j: int| 0 <= j < k.len() implies s.contains(#[trigger] k[j]) by {
            assert(t[j] == k[j]);
            assert(t.contains(t[j]));
            if k0.contains(t[j]) {
                let m = choose|m: int| 0 <= m < k0.len() && k0[m] == t[j];
                assert(d.contains(k0[m]));
                let w = choose|w: int| 0 <= w < d.len() && d[w] == k0[m];
                assert(s[w] == t[j]);
            }
        }
        if s.len() <= n {
            assert(k == t);
            assert forall|i: int| 0 <= i < s.len() implies k.contains(#[trigger] s[i]) by {
                if i < d.len() {
                    assert(d[i] == s[i]);
                    assert(k0.contains(d[i]));
                }
                assert(t.contains(s[i]));
            }
        }
        assert forall|i: int, j: int| 0 <= i < j < k.len() implies !comes_before(
            #[trigger] k[j],
            #[trigger] k[i],
            descending,
        ) by {
            assert(t[i] == k[i] && t[j] == k[j]);
        }
        assert forall|i: int, j: int|
            0 <= i < s.len() && 0 <= j < k.len() && !k.contains(s[i]) implies !comes_before(
            #[trigger] s[i],
            #[trigger] k[j],
            descending,
        ) by {
            let y = s[i];
            let z = k[j];
            assert(t[j] == z);
            assert(t.contains(z));
            assert(all.contains(y));
            assert(all.contains(z)) by {
                if k0.contains(z) {
                    let m = choose|m: int| 0 <= m < k0.len() && k0[m] == z;
                    assert(all.contains(k0[m]));
                }
            }
            if t.contains(y) {
                let m = choose|m: int| 0 <= m < t.len() && t[m] == y;
                if m < k.len() {
                    assert(k[m] == y);
                }
                assert(!comes_before(t[m], t[j], descending));
            } else {
                assert(!k0.contains(y) && y != x);
                assert(i < d.len());
                assert(d[i] == y);
                if k0.contains(z) {
                    let m = choose|m: int| 0 <= m < k0.len() && k0[m] == z;
                    assert(!comes_before(d[i], k0[m], descending));
                } else {
                    assert(z == x);
                    // All places were taken and the new record has one of them, so
                    // the last one, which left, does not come before the new one.
                    assert(d.len() > n && k0.len() == n);
                    let w = t[n as int];
                    assert(!comes_before(t[n as int], t[j], descending));
                    assert(t.contains(w));
                    if w != x {
                        assert(k0.contains(w));
                        let m = choose|m: int| 0 <= m < k0.len() && k0[m] == w;
                        assert(!comes_before(d[i], k0[m], descending));
                        assert(all.contains(k0[m]));
                        assert(all.contains(w) && all.contains(x));
                    } else {
                        // The new record occurs twice: it was kept already.
                        lemma_twice(k0, x, descending, j, n as int);
                    }
                }
            }
        }
    }
}

proof fn lemma_twice(s: Seq<Sortable>, x: Sortable, descending: bool, i: int, j: int)
    requires
        0 <= i < j < put_in_order(s, x, descending).len(),
        put_in_order(s, x, descending)[i] == x,
        put_in_order(s, x, descending)[j] == x,
    ensures
        s.contains(x),
    decreases s.len(),
{
    lemma_put_in_order(s, x, descending);
    let r = put_in_order(s, x, descending);
    if s.len() > 0 {
        if comes_before(x, s.last(), descending) {
            let d = s.drop_last();
            let q = put_in_order(d, x, descending);
            lemma_put_in_order(d, x, descending);
            if j < q.len() {
                assert(q[i] == x && q[j] == x);
                lemma_twice(d, x, descending, i, j);
                let m = choose|m: int| 0 <= m < d.len() && d[m] == x;
                assert(s[m] == x);
            } else {
                assert(s[s.len() - 1] == x);
            }
        } else {
            assert(s[i] == r[i]);
        }
    }
}

/// How many records an aggregation looks at.
pub struct CountedScan {
    limit: Option<u64>,
    counted: u64,
}

impl CountedScan {
    /// How many records are looked at, if that is limited.
    pub closed spec fn wanted(&self) -> Option<u64> {
        self.limit
    }

    /// How many records were looked at.
    pub closed spec fn count(&self) -> u64 {
        self.counted
    }

    /// No record yet.
    pub fn new(limit: Option<u64>) -> (r: Self)
        ensures
            r.wanted() == limit,
            r.count() == 0,
    {
        CountedScan { limit, counted: 0 }
    }

    /// Counts a record. Says whether the scan goes on.
    pub fn note(&mut self) -> (go_on: bool)
        requires
            old(self).count() < u64::MAX,
        ensures
            final(self).wanted() == old(self).wanted(),
            final(self).count() == old(self).count() + 1,
            go_on == !(old(self).wanted() matches Some(l) && old(self).count() + 1 >= l),
    {
        self.counted = self.counted + 1;
        match self.limit {
            Some(l) => self.counted < l,
            None => true,
        }
    }

    /// How many records were looked at.
    pub fn counted(&self) -> (r: u64)
        ensures
            r == self.count(),
    {
        self.counted
    }
}

// ---------------------------------------------------------------------------
// Which records an ordered scan answers with
// ---------------------------------------------------------------------------
/// The record at `i` is ahead of the one at `j`: by the order, or, where the order does
/// not tell them apart, because it was offered first.
pub open spec fn is_first(lt: spec_fn(int, int) -> bool, i: int, j: int) -> bool {
    lt(i, j) || (!lt(j, i) && i < j)
}

/// The places are the first `n` of `len`, in order: each is ahead of those after it, and
/// of every place that is not among them.
pub open spec fn are_first(p: Seq<int>, len: nat, n: nat, lt: spec_fn(int, int) -> bool) -> bool {
    &&& p.len() == if len < n {
        len
    } else {
        n
    }
    &&& forall|j: int| 0 <= j < p.len() ==> 0 <= #[trigger] p[j] < len
    &&& forall|i: int, j: int| 0 <= i < j < p.len() ==> is_first(lt, #[trigger] p[i], #[trigger] p[j])
    &&& forall|k: int, j: int|
        0 <= k < len && !(#[trigger] p.contains(k)) && 0 <= j < p.len() ==> is_first(
            lt,
            #[trigger] p[j],
            k,
        )
}

/// The answer is the records at those places.
pub open spec fn are_at(answer: Seq<Record>, s: Seq<Sortable>, p: Seq<int>) -> bool {
    &&& answer.len() == p.len()
    &&& forall|j: int| 0 <= j < p.len() ==> #[trigger] answer[j] == s[p[j]].rec
}

/// The answer is the first `n` of the records offered, in an order of their places.
pub open spec fn starts_order(
    answer: Seq<Record>,
    s: Seq<Sortable>,
    n: nat,
    lt: spec_fn(int, int) -> bool,
) -> bool {
    exists|p: Seq<int>| #[trigger] are_first(p, s.len(), n, lt) && are_at(answer, s, p)
}

/// What an ordered scan over the records answers with.
pub open spec fn ordered_answer(s: Seq<Sortable>, n: nat, descending: bool) -> Seq<Record> {
    sorted_records(kept_in_order(s, n, descending))
}

/// Below `len`, `lt` is an order in which some may not be told apart.
spec fn is_weak_order(lt: spec_fn(int, int) -> bool, len: nat) -> bool {
    &&& forall|i: int, j: int|
        0 <= i < len && 0 <= j < len && #[trigger] lt(i, j) ==> !lt(j, i)
    &&& forall|i: int, j: int, k: int|
        #![trigger lt(i, j), lt(j, k)]
        0 <= i < len && 0 <= j < len && 0 <= k < len && !lt(i, j) && !lt(j, k) ==> !lt(i, k)
}

proof fn lemma_place(q: Seq<Sortable>, x: Sortable, descending: bool) -> (pos: int)
    ensures
        0 <= pos <= q.len(),
        forall|j: int| pos <= j < q.len() ==> comes_before(x, #[trigger] q[j], descending),
        pos > 0 ==> !comes_before(x, q[pos - 1], descending),
    decreases q.len(),
{
    if q.len() == 0 {
        0
    } else if comes_before(x, q.last(), descending) {
        let d = q.drop_last();
        let pos = lemma_place(d, x, descending);
        assert forall|j: int| pos <= j < q.len() implies comes_before(
            x,
            #[trigger] q[j],
            descending,
        ) by {
            if j < d.len() {
                assert(d[j] == q[j]);
            }
        }
        if pos > 0 {
            assert(d[pos - 1] == q[pos - 1]);
        }
        pos
    } else {
        q.len() as int
    }
}

proof fn lemma_first_through(lt: spec_fn(int, int) -> bool, len: nat, m: int, a: int, k: int)
    requires
        is_weak_order(lt, len),
        0 <= m < len,
        0 <= a < len,
        0 <= k < len,
        lt(m, a),
        is_first(lt, a, k),
    ensures
        lt(m, k),
{
    if !lt(m, k) {
        if !lt(k, a) {
            assert(!lt(m, a));
        } else {
            assert(lt(a, k));
        }
    }
}

proof fn lemma_kept_places(
    s: Seq<Sortable>,
    n: nat,
    descending: bool,
    lt: spec_fn(int, int) -> bool,
) -> (p: Seq<int>)
    requires
        is_weak_order(lt, s.len()),
        forall|i: int, j: int|
            0 <= i < s.len() && 0 <= j < s.len() ==> comes_before(
                #[trigger] s[i],
                #[trigger] s[j],
                descending,
            ) == lt(i, j),
    ensures
        are_first(p, s.len(), n, lt),
        s.len() <= n ==> forall|k: int| 0 <= k < s.len() ==> #[trigger] p.contains(k),
        kept_in_order(s, n, descending) == p.map_values(|i: int| s[i]),
    decreases s.len(),
{
    if s.len() == 0 {
        let p = Seq::<int>::empty();
        assert(kept_in_order(s, n, descending) =~= p.map_values(|i: int| s[i]));
        p
    } else {
        let d = s.drop_last();
        let m = d.len() as int;
        let x = s.last();
        assert forall|i: int, j: int| 0 <= i < d.len() && 0 <= j < d.len() implies comes_before(
            #[trigger] d[i],
            #[trigger] d[j],
            descending,
        ) == lt(i, j) by {
            assert(d[i] == s[i] && d[j] == s[j]);
        }
        let was = lemma_kept_places(d, n, descending, lt);
        let q = kept_in_order(d, n, descending);
        let pos = lemma_place(q, x, descending);
        lemma_place_in_order(q, x, pos, descending);
        assert(s[m] == x);
        assert forall|j: int| 0 <= j < was.len() implies q[j] == s[#[trigger] was[j]] by {
            assert(d[was[j]] == s[was[j]]);
        }
        assert forall|j: int| pos <= j < was.len() implies lt(m, #[trigger] was[j]) by {
            assert(comes_before(s[m], s[was[j]], descending));
        }
        assert forall|j: int| 0 <= j < pos implies !lt(m, #[trigger] was[j]) by {
            assert(!comes_before(s[m], s[was[pos - 1]], descending));
            assert(!lt(m, was[pos - 1]));
            if j < pos - 1 {
                assert(is_first(lt, was[j], was[pos - 1]));
                assert(!lt(was[pos - 1], was[j]));
            }
        }
        let p = was.insert(pos, m);
        let t = put_in_order(q, x, descending);
        assert(t =~= p.map_values(|i: int| s[i]));
        let r = lemma_place_joins(was, pos, d.len(), n, lt);
        assert(kept_in_order(s, n, descending) =~= r.map_values(|i: int| s[i]));
        r
    }
}

/// A next place put where it belongs among the first `n` makes the first `n`.
proof fn lemma_place_joins(
    was: Seq<int>,
    pos: int,
    len: nat,
    n: nat,
    lt: spec_fn(int, int) -> bool,
) -> (r: Seq<int>)
    requires
        is_weak_order(lt, len + 1),
        are_first(was, len, n, lt),
        len <= n ==> forall|k: int| 0 <= k < len ==> #[trigger] was.contains(k),
        0 <= pos <= was.len(),
        forall|j: int| pos <= j < was.len() ==> lt(len as int, #[trigger] was[j]),
        forall|j: int| 0 <= j < pos ==> !lt(len as int, #[trigger] was[j]),
    ensures
        r == if was.len() + 1 > n {
            was.insert(pos, len as int).take(n as int)
        } else {
            was.insert(pos, len as int)
        },
        are_first(r, len + 1, n, lt),
        len + 1 <= n ==> forall|k: int| 0 <= k < len + 1 ==> #[trigger] r.contains(k),
{
    let m = len as int;
    let p = was.insert(pos, m);
    let r = if p.len() > n {
        p.take(n as int)
    } else {
        p
    };
    assert forall|i: int, j: int| 0 <= i < j < p.len() implies is_first(
        lt,
        #[trigger] p[i],
        #[trigger] p[j],
    ) by {
        if i < pos && j == pos {
            assert(p[i] == was[i]);
        } else if i == pos {
            assert(p[j] == was[j - 1]);
        } else {
            let a = if i < pos {
                i
            } else {
                i - 1
            };
            let b = if j < pos {
                j
            } else {
                j - 1
            };
            assert(p[i] == was[a] && p[j] == was[b]);
            assert(is_first(lt, was[a], was[b]));
        }
    }
    assert forall|k: int| was.contains(k) || k == m implies #[trigger] p.contains(k) by {
        if k == m {
            assert(p[pos] == k);
        } else {
            let j = choose|j: int| 0 <= j < was.len() && was[j] == k;
            if j < pos {
                assert(p[j] == k);
            } else {
                assert(p[j + 1] == k);
            }
        }
    }
    assert forall|k: int, j: int|
        0 <= k < len + 1 && !(#[trigger] r.contains(k)) && 0 <= j < r.len() implies is_first(
        lt,
        #[trigger] r[j],
        k,
    ) by {
        assert(r[j] == p[j]);
        if p.contains(k) {
            let l = choose|l: int| 0 <= l < p.len() && p[l] == k;
            if l < r.len() {
                assert(r[l] == k);
            }
            assert(is_first(lt, p[j], p[l]));
        } else {
            assert(k != m && !was.contains(k));
            if j == pos {
                assert(was.len() == n);
                let e = was[n - 1];
                assert(is_first(lt, e, k));
                assert(lt(m, e));
                lemma_first_through(lt, len + 1, m, e, k);
            } else {
                let a = if j < pos {
                    j
                } else {
                    j - 1
                };
                assert(was[a] == p[j]);
                assert(is_first(lt, was[a], k));
            }
        }
    }
    assert forall|j: int| 0 <= j < r.len() implies 0 <= #[trigger] r[j] < len + 1 by {
        assert(r[j] == p[j]);
        if j < pos {
            assert(p[j] == was[j]);
        } else if j > pos {
            assert(p[j] == was[j - 1]);
        }
    }
    assert forall|i: int, j: int| 0 <= i < j < r.len() implies is_first(
        lt,
        #[trigger] r[i],
        #[trigger] r[j],
    ) by {
        assert(r[i] == p[i] && r[j] == p[j]);
    }
    r
}

proof fn lemma_starts_order(
    s: Seq<Sortable>,
    n: nat,
    descending: bool,
    lt: spec_fn(int, int) -> bool,
)
    requires
        is_weak_order(lt, s.len()),
        forall|i: int, j: int|
            0 <= i < s.len() && 0 <= j < s.len() ==> comes_before(
                #[trigger] s[i],
                #[trigger] s[j],
                descending,
            ) == lt(i, j),
    ensures
        starts_order(ordered_answer(s, n, descending), s, n, lt),
{
    let p = lemma_kept_places(s, n, descending, lt);
    assert(are_at(ordered_answer(s, n, descending), s, p));
}

/// Of records ordered by an integer, a scan upward answers with the first ones by it:
/// none stands before one with a lesser integer, and no lesser one is left out. A scan
/// downward answers with those with the greatest. Of those with the same, the ones
/// offered first come first.
pub proof fn law_scan_by_integers(s: Seq<Sortable>, keys: Seq<i64>, n: nat)
    requires
        keys.len() == s.len(),
        forall|i: int|
            0 <= i < s.len() ==> value::opt_view((#[trigger] s[i]).sort_val) == Some(
                ValueV::Int(keys[i]),
            ),
    ensures
        starts_order(ordered_answer(s, n, false), s, n, |i: int, j: int| keys[i] < keys[j]),
        starts_order(ordered_answer(s, n, true), s, n, |i: int, j: int| keys[i] > keys[j]),
{
    lemma_starts_order(s, n, false, |i: int, j: int| keys[i] < keys[j]);
    lemma_starts_order(s, n, true, |i: int, j: int| keys[i] > keys[j]);
}

/// Of records ordered by a timestamp, a scan upward answers with the earliest, and one
/// downward with the latest.
pub proof fn law_scan_by_timestamps(s: Seq<Sortable>, keys: Seq<i64>, n: nat)
    requires
        keys.len() == s.len(),
        forall|i: int|
            0 <= i < s.len() ==> value::opt_view((#[trigger] s[i]).sort_val) == Some(
                ValueV::Timestamp(keys[i]),
            ),
    ensures
        starts_order(ordered_answer(s, n, false), s, n, |i: int, j: int| keys[i] < keys[j]),
        starts_order(ordered_answer(s, n, true), s, n, |i: int, j: int| keys[i] > keys[j]),
{
    lemma_starts_order(s, n, false, |i: int, j: int| keys[i] < keys[j]);
    lemma_starts_order(s, n, true, |i: int, j: int| keys[i] > keys[j]);
}

/// Of records ordered by a boolean, a scan upward answers with the false ones first, and
/// one downward with the true ones.
pub proof fn law_scan_by_booleans(s: Seq<Sortable>, keys: Seq<bool>, n: nat)
    requires
        keys.len() == s.len(),
        forall|i: int|
            0 <= i < s.len() ==> value::opt_view((#[trigger] s[i]).sort_val) == Some(
                ValueV::Bool(keys[i]),
            ),
    ensures
        starts_order(ordered_answer(s, n, false), s, n, |i: int, j: int| !keys[i] && keys[j]),
        starts_order(ordered_answer(s, n, true), s, n, |i: int, j: int| keys[i] && !keys[j]),
{
    lemma_starts_order(s, n, false, |i: int, j: int| !keys[i] && keys[j]);
    lemma_starts_order(s, n, true, |i: int, j: int| keys[i] && !keys[j]);
}

/// Of records ordered by a text, a scan upward answers with the first ones by the bytes
/// of the text, and one downward with the last ones.
pub proof fn law_scan_by_texts(s: Seq<Sortable>, keys: Seq<Seq<char>>, n: nat)
    requires
        keys.len() == s.len(),
        forall|i: int|
            0 <= i < s.len() ==> value::opt_view((#[trigger] s[i]).sort_val) == Some(
                ValueV::Text(keys[i]),
            ),
    ensures
        starts_order(
            ordered_answer(s, n, false),
            s,
            n,
            |i: int, j: int| bytes::str_lt(keys[i], keys[j]),
        ),
        starts_order(
            ordered_answer(s, n, true),
            s,
            n,
            |i: int, j: int| bytes::str_lt(keys[j], keys[i]),
        ),
{
    let up = |i: int, j: int| bytes::str_lt(keys[i], keys[j]);
    let down = |i: int, j: int| bytes::str_lt(keys[j], keys[i]);
    assert forall|i: int, j: int|
        0 <= i < s.len() && 0 <= j < s.len() && #[trigger] up(i, j) implies !up(j, i) by {
        bytes::lemma_str_asymmetric(keys[i], keys[j]);
    }
    assert forall|i: int, j: int, k: int|
        #![trigger up(i, j), up(j, k)]
        0 <= i < s.len() && 0 <= j < s.len() && 0 <= k < s.len() && !up(i, j) && !up(
            j,
            k,
        ) implies !up(i, k) by {
        bytes::lemma_str_not_before(keys[i], keys[j], keys[k]);
    }
    assert forall|i: int, j: int|
        0 <= i < s.len() && 0 <= j < s.len() && #[trigger] down(i, j) implies !down(j, i) by {
        bytes::lemma_str_asymmetric(keys[j], keys[i]);
    }
    assert forall|i: int, j: int, k: int|
        #![trigger down(i, j), down(j, k)]
        0 <= i < s.len() && 0 <= j < s.len() && 0 <= k < s.len() && !down(i, j) && !down(
            j,
            k,
        ) implies !down(i, k) by {
        bytes::lemma_str_not_before(keys[k], keys[j], keys[i]);
    }
    lemma_starts_order(s, n, false, up);
    lemma_starts_order(s, n, true, down);
}

/// Of records ordered by a number, a scan upward answers with the least by value, and
/// one downward with the greatest. An integer beside a floating-point number is taken
/// as the nearest one.
pub proof fn law_scan_by_numbers(s: Seq<Sortable>, keys: Seq<u64>, n: nat)
    requires
        keys.len() == s.len(),
        forall|i: int| 0 <= i < s.len() ==> float::is_finite(#[trigger] keys[i]),
        forall|i: int|
            0 <= i < s.len() ==> match value::opt_view((#[trigger] s[i]).sort_val) {
                Some(ValueV::Float(x)) => keys[i] == x,
                Some(ValueV::Int(m)) => keys[i] == float::int_double(m) && -0x20_0000_0000_0000
                    <= m <= 0x20_0000_0000_0000,
                _ => false,
            },
    ensures
        starts_order(
            ordered_answer(s, n, false),
            s,
            n,
            |i: int, j: int| float::units(keys[i]) < float::units(keys[j]),
        ),
        starts_order(
            ordered_answer(s, n, true),
            s,
            n,
            |i: int, j: int| float::units(keys[i]) > float::units(keys[j]),
        ),
{
    let up = |i: int, j: int| float::units(keys[i]) < float::units(keys[j]);
    let down = |i: int, j: int| float::units(keys[i]) > float::units(keys[j]);
    assert forall|i: int, j: int| 0 <= i < s.len() && 0 <= j < s.len() implies comes_before(
        #[trigger] s[i],
        #[trigger] s[j],
        false,
    ) == up(i, j) && comes_before(s[i], s[j], true) == down(i, j) by {
        float::law_doubles_compare_as_numbers(keys[i], keys[j]);
        float::law_doubles_compare_as_numbers(keys[j], keys[i]);
        match (value::opt_view(s[i].sort_val), value::opt_view(s[j].sort_val)) {
            (Some(ValueV::Int(a)), Some(ValueV::Int(b))) => {
                float::law_small_integers_are_exact(a);
                float::law_small_integers_are_exact(b);
                let w = vstd::arithmetic::power2::pow2(1074) as int;
                vstd::arithmetic::power2::lemma_pow2_pos(1074);
                if a < b {
                    vstd::arithmetic::mul::lemma_mul_strict_inequality(a as int, b as int, w);
                } else if b < a {
                    vstd::arithmetic::mul::lemma_mul_strict_inequality(b as int, a as int, w);
                }
            },
            _ => {},
        }
    }
    lemma_starts_order(s, n, false, up);
    lemma_starts_order(s, n, true, down);
}

/// In a scan upward a record without the value comes first and one with a null comes
/// last, whatever the others have; downward it is the other way round.
pub proof fn law_scan_places_missing(s: Seq<Sortable>, n: nat, i: int, j: int)
    requires
        orders(s, false),
        orders(s, true),
        0 <= i < j,
    ensures
        ({
            let up = kept_in_order(s, n, false);
            let down = kept_in_order(s, n, true);
            &&& j < up.len() && up[j].sort_val is None ==> up[i].sort_val is None
            &&& j < up.len() && up[i].sort_val == Some(Value::Null) ==> up[j].sort_val == Some(
                Value::Null,
            )
            &&& j < down.len() && down[i].sort_val is None ==> down[j].sort_val is None
            &&& j < down.len() && down[j].sort_val == Some(Value::Null) ==> down[i].sort_val
                == Some(Value::Null)
        }),
{
    law_ordered_scan_keeps_first(s, n, false);
    law_ordered_scan_keeps_first(s, n, true);
    let up = kept_in_order(s, n, false);
    let down = kept_in_order(s, n, true);
    if j < up.len() {
        assert(!comes_before(up[j], up[i], false));
    }
    if j < down.len() {
        assert(!comes_before(down[j], down[i], true));
    }
}

/// A limit keeps the first records, as many as there are up to the limit, and says that
/// there are more exactly where some were left out. Without one all are kept.
pub proof fn law_limit_keeps_the_first<T>(s: Seq<T>, n: u64)
    ensures
        capped(s, None) == s,
        !over_cap(s, None),
        capped(s, Some(n)).is_prefix_of(s),
        capped(s, Some(n)).len() == if s.len() < n {
            s.len()
        } else {
            n as nat
        },
        over_cap(s, Some(n)) <==> capped(s, Some(n)).len() < s.len(),
{
}

} // verus!
