//! The best of scored candidates.

use crate::float;
use vstd::prelude::*;

verus! {

/// A candidate with its similarity and its identity.
pub struct Ranked<P> {
    /// The similarity, as the bits of a double.
    pub score: u64,
    pub lid: u128,
    pub item: P,
}

/// What a similarity counts; no number counts least.
pub open spec fn worth(score: u64) -> int {
    if float::is_nan(score) {
        -0x1_0000_0000_0000_0000
    } else {
        float::rank(score)
    }
}

/// The candidate comes ahead of the other: it is more similar, or as similar
/// with the smaller identity.
pub open spec fn ahead<P>(a: Ranked<P>, b: Ranked<P>) -> bool {
    worth(a.score) > worth(b.score) || (worth(a.score) == worth(b.score) && a.lid < b.lid)
}

/// Whether a candidate comes ahead of another.
pub fn is_ahead(a_score: u64, a_lid: u128, b_score: u64, b_lid: u128) -> (r: bool)
    ensures
        r == (worth(a_score) > worth(b_score) || (worth(a_score) == worth(b_score) && a_lid
            < b_lid)),
{
    let a_nan = float::nan(a_score);
    let b_nan = float::nan(b_score);
    if a_nan || b_nan {
        if a_nan && b_nan {
            a_lid < b_lid
        } else {
            b_nan
        }
    } else if float::less(b_score, a_score) {
        true
    } else if float::equal(a_score, b_score) {
        a_lid < b_lid
    } else {
        false
    }
}

/// No candidate comes after one that it is ahead of.
pub open spec fn in_order<P>(s: Seq<Ranked<P>>) -> bool {
    forall|i: int, j: int| 0 <= i < j < s.len() ==> !ahead(#[trigger] s[j], #[trigger] s[i])
}

/// The candidates with another one put before those that it is ahead of.
pub open spec fn inserted<P>(s: Seq<Ranked<P>>, x: Ranked<P>) -> Seq<Ranked<P>>
    decreases s.len(),
{
    if s.len() == 0 {
        seq![x]
    } else if ahead(x, s.last()) {
        inserted(s.drop_last(), x).push(s.last())
    } else {
        s.push(x)
    }
}

/// The candidates in order.
pub open spec fn ranked<P>(s: Seq<Ranked<P>>) -> Seq<Ranked<P>>
    decreases s.len(),
{
    if s.len() == 0 {
        Seq::empty()
    } else {
        inserted(ranked(s.drop_last()), s.last())
    }
}

/// The first `k`, or all where there are fewer.
pub open spec fn at_most<P>(s: Seq<P>, k: nat) -> Seq<P> {
    if s.len() > k {
        s.take(k as int)
    } else {
        s
    }
}

/// The best `k` of the candidates, in order.
pub open spec fn best<P>(s: Seq<Ranked<P>>, k: nat) -> Seq<Ranked<P>> {
    at_most(ranked(s), k)
}

proof fn lemma_inserted<P>(s: Seq<Ranked<P>>, x: Ranked<P>)
    ensures
        inserted(s, x).len() == s.len() + 1,
        in_order(s) ==> in_order(inserted(s, x)),
        forall|y: Ranked<P>| #[trigger] inserted(s, x).contains(y) <==> (s.contains(y) || y == x),
    decreases s.len(),
{
    let r = inserted(s, x);
    if s.len() == 0 {
        assert(r[0] == x);
    } else if ahead(x, s.last()) {
        let d = s.drop_last();
        lemma_inserted(d, x);
        let q = inserted(d, x);
        assert forall|y: Ranked<P>| #[trigger] r.contains(y) <==> (s.contains(y) || y == x) by {
            if r.contains(y) {
                let i = choose|i: int| 0 <= i < r.len() && r[i] == y;
                if i < q.len() {
                    assert(q[i] == y);
                    assert(q.contains(y));
                    if d.contains(y) {
                        let j = choose|j: int| 0 <= j < d.len() && d[j] == y;
                        assert(s[j] == y);
                    }
                } else {
                    assert(s[s.len() - 1] == y);
                }
            }
            if s.contains(y) {
                let j = choose|j: int| 0 <= j < s.len() && s[j] == y;
                if j < d.len() {
                    assert(d[j] == y);
                    assert(q.contains(y));
                    let i = choose|i: int| 0 <= i < q.len() && q[i] == y;
                    assert(r[i] == y);
                } else {
                    assert(r[r.len() - 1] == y);
                }
            }
            if y == x {
                assert(q.contains(x));
                let i = choose|i: int| 0 <= i < q.len() && q[i] == y;
                assert(r[i] == y);
            }
        }
        if in_order(s) {
            assert(in_order(d)) by {
                assert forall|i: int, j: int| 0 <= i < j < d.len() implies !ahead(
                    #[trigger] d[j],
                    #[trigger] d[i],
                ) by {
                    assert(s[i] == d[i] && s[j] == d[j]);
                }
            }
            assert forall|i: int, j: int| 0 <= i < j < r.len() implies !ahead(
                #[trigger] r[j],
                #[trigger] r[i],
            ) by {
                if j < q.len() {
                    assert(q[i] == r[i] && q[j] == r[j]);
                } else {
                    assert(r[i] == q[i]);
                    assert(q.contains(q[i]));
                    if d.contains(q[i]) {
                        let m = choose|m: int| 0 <= m < d.len() && d[m] == q[i];
                        assert(s[m] == q[i]);
                    }
                }
            }
        }
    } else {
        assert forall|y: Ranked<P>| #[trigger] r.contains(y) <==> (s.contains(y) || y == x) by {
            if s.contains(y) {
                let j = choose|j: int| 0 <= j < s.len() && s[j] == y;
                assert(r[j] == y);
            }
            if y == x {
                assert(r[r.len() - 1] == y);
            }
        }
        if in_order(s) {
            assert forall|i: int, j: int| 0 <= i < j < r.len() implies !ahead(
                #[trigger] r[j],
                #[trigger] r[i],
            ) by {
                if j < s.len() {
                    assert(s[i] == r[i] && s[j] == r[j]);
                } else if i < s.len() - 1 {
                    assert(!ahead(s[s.len() - 1], s[i]));
                }
            }
        }
    }
}

proof fn lemma_ranked<P>(s: Seq<Ranked<P>>)
    ensures
        ranked(s).len() == s.len(),
        in_order(ranked(s)),
        forall|y: Ranked<P>| #[trigger] ranked(s).contains(y) <==> s.contains(y),
    decreases s.len(),
{
    if s.len() > 0 {
        let d = s.drop_last();
        lemma_ranked(d);
        lemma_inserted(ranked(d), s.last());
        assert forall|y: Ranked<P>| #[trigger] ranked(s).contains(y) <==> s.contains(y) by {
            if s.contains(y) {
                let j = choose|j: int| 0 <= j < s.len() && s[j] == y;
                if j < d.len() {
                    assert(d[j] == y);
                }
            }
            if d.contains(y) {
                let j = choose|j: int| 0 <= j < d.len() && d[j] == y;
                assert(s[j] == y);
            }
            if y == s.last() {
                assert(s[s.len() - 1] == y);
            }
        }
    }
}

/// The ranking is in order.
pub proof fn lemma_ranked_in_order<P>(s: Seq<Ranked<P>>)
    ensures
        in_order(ranked(s)),
        ranked(s).len() == s.len(),
{
    lemma_ranked(s);
}

/// To rank candidates loses none of them.
pub proof fn lemma_ranked_keeps<P>(s: Seq<Ranked<P>>, x: Ranked<P>)
    ensures
        ranked(s).contains(x) == s.contains(x),
{
    lemma_ranked(s);
}

/// No two of the candidates have the same identity.
pub open spec fn lids_distinct<P>(s: Seq<Ranked<P>>) -> bool {
    forall|i: int, j: int|
        0 <= i < j < s.len() ==> (#[trigger] s[i]).lid != (#[trigger] s[j]).lid
}

proof fn lemma_inserted_distinct<P>(s: Seq<Ranked<P>>, x: Ranked<P>)
    requires
        lids_distinct(s),
        forall|i: int| 0 <= i < s.len() ==> (#[trigger] s[i]).lid != x.lid,
    ensures
        lids_distinct(inserted(s, x)),
    decreases s.len(),
{
    let r = inserted(s, x);
    if s.len() > 0 && ahead(x, s.last()) {
        let d = s.drop_last();
        assert forall|i: int, j: int| 0 <= i < j < d.len() implies (#[trigger] d[i]).lid != (
        #[trigger] d[j]).lid by {
            assert(s[i] == d[i] && s[j] == d[j]);
        }
        assert forall|i: int| 0 <= i < d.len() implies (#[trigger] d[i]).lid != x.lid by {
            assert(s[i] == d[i]);
        }
        lemma_inserted_distinct(d, x);
        lemma_inserted(d, x);
        let q = inserted(d, x);
        assert forall|i: int, j: int| 0 <= i < j < r.len() implies (#[trigger] r[i]).lid != (
        #[trigger] r[j]).lid by {
            assert(r[i] == q[i]);
            if j < q.len() {
                assert(r[j] == q[j]);
            } else {
                assert(q.contains(q[i]));
                if d.contains(q[i]) {
                    let w = choose|w: int| 0 <= w < d.len() && d[w] == q[i];
                    assert(s[w].lid != s[s.len() - 1].lid);
                } else {
                    assert(s[s.len() - 1].lid != x.lid);
                }
            }
        }
    } else {
        assert forall|i: int, j: int| 0 <= i < j < r.len() implies (#[trigger] r[i]).lid != (
        #[trigger] r[j]).lid by {
            assert(r[i] == s[i]);
            if j < s.len() {
                assert(r[j] == s[j]);
            }
        }
    }
}

/// Candidates with different identities still have them when they are ranked.
pub proof fn lemma_ranked_distinct<P>(s: Seq<Ranked<P>>)
    requires
        lids_distinct(s),
    ensures
        lids_distinct(ranked(s)),
    decreases s.len(),
{
    if s.len() > 0 {
        let d = s.drop_last();
        assert forall|i: int, j: int| 0 <= i < j < d.len() implies (#[trigger] d[i]).lid != (
        #[trigger] d[j]).lid by {
            assert(s[i] == d[i] && s[j] == d[j]);
        }
        lemma_ranked_distinct(d);
        lemma_ranked(d);
        assert forall|i: int| 0 <= i < ranked(d).len() implies (#[trigger] ranked(d)[i]).lid
            != s.last().lid by {
            assert(ranked(d).contains(ranked(d)[i]));
            let w = choose|w: int| 0 <= w < d.len() && d[w] == ranked(d)[i];
            assert(s[w].lid != s[s.len() - 1].lid);
        }
        lemma_inserted_distinct(ranked(d), s.last());
    }
}

/// To put a candidate among the best `k` is to put it among all and keep the
/// best `k`.
proof fn lemma_insert_into_best<P>(s: Seq<Ranked<P>>, x: Ranked<P>, k: nat)
    requires
        in_order(s),
    ensures
        at_most(inserted(at_most(s, k), x), k) == at_most(inserted(s, x), k),
    decreases s.len(),
{
    lemma_inserted(s, x);
    if s.len() > k {
        let d = s.drop_last();
        assert(in_order(d)) by {
            assert forall|i: int, j: int| 0 <= i < j < d.len() implies !ahead(
                #[trigger] d[j],
                #[trigger] d[i],
            ) by {
                assert(s[i] == d[i] && s[j] == d[j]);
            }
        }
        assert(at_most(s, k) =~= at_most(d, k));
        lemma_inserted(d, x);
        lemma_inserted(s.take(k as int), x);
        if ahead(x, s.last()) {
            lemma_insert_into_best(d, x, k);
            assert(inserted(s, x).take(k as int) =~= inserted(d, x).take(k as int));
        } else {
            let t = s.take(k as int);
            assert(inserted(s, x).take(k as int) =~= t);
            if k > 0 {
                assert(t.last() == s[k - 1]);
                assert(!ahead(s[s.len() - 1], s[k - 1]));
                assert(inserted(t, x) == t.push(x));
            }
            assert(inserted(t, x).take(k as int) =~= t);
        }
    }
}

/// The best candidates are candidates, in order, as many as there are up to
/// `k`, and no other candidate is ahead of one of them.
pub proof fn law_best_is_best<P>(s: Seq<Ranked<P>>, k: nat)
    ensures
        best(s, k).len() == if s.len() < k {
            s.len()
        } else {
            k
        },
        in_order(best(s, k)),
        forall|j: int| 0 <= j < best(s, k).len() ==> s.contains(#[trigger] best(s, k)[j]),
        forall|i: int, j: int|
            0 <= i < s.len() && 0 <= j < best(s, k).len() && !best(s, k).contains(s[i])
                ==> !ahead(#[trigger] s[i], #[trigger] best(s, k)[j]),
{
    lemma_ranked(s);
    let all = ranked(s);
    let b = best(s, k);
    assert forall|j: int| 0 <= j < b.len() implies s.contains(#[trigger] b[j]) by {
        assert(b[j] == all[j]);
        assert(all.contains(all[j]));
    }
    assert forall|i: int, j: int| 0 <= i < j < b.len() implies !ahead(
        #[trigger] b[j],
        #[trigger] b[i],
    ) by {
        assert(b[i] == all[i] && b[j] == all[j]);
    }
    assert forall|i: int, j: int|
        0 <= i < s.len() && 0 <= j < b.len() && !b.contains(s[i]) implies !ahead(
        #[trigger] s[i],
        #[trigger] b[j],
    ) by {
        assert(s.contains(s[i]));
        assert(all.contains(s[i]));
        let m = choose|m: int| 0 <= m < all.len() && all[m] == s[i];
        if m < b.len() {
            assert(b[m] == s[i]);
        }
        assert(b[j] == all[j]);
    }
}

proof fn lemma_filter_inserted<P>(
    s: Seq<Ranked<P>>,
    x: Ranked<P>,
    pass: spec_fn(Ranked<P>) -> bool,
)
    requires
        in_order(s),
    ensures
        inserted(s, x).filter(pass) == if pass(x) {
            inserted(s.filter(pass), x)
        } else {
            s.filter(pass)
        },
    decreases s.len(),
{
    reveal(Seq::filter);
    let f = s.filter(pass);
    if s.len() == 0 {
        assert(seq![x].drop_last() =~= Seq::<Ranked<P>>::empty());
        assert(f =~= Seq::<Ranked<P>>::empty());
    } else if ahead(x, s.last()) {
        let d = s.drop_last();
        assert(in_order(d)) by {
            assert forall|i: int, j: int| 0 <= i < j < d.len() implies !ahead(
                #[trigger] d[j],
                #[trigger] d[i],
            ) by {
                assert(s[i] == d[i] && s[j] == d[j]);
            }
        }
        lemma_filter_inserted(d, x, pass);
        let q = inserted(d, x);
        assert(q.push(s.last()).drop_last() =~= q);
        if pass(s.last()) {
            assert(f.drop_last() =~= d.filter(pass));
        }
    } else {
        assert(s.push(x).drop_last() =~= s);
        if f.len() > 0 && pass(x) {
            s.lemma_filter_contains_rev(pass, f.last());
            let j = choose|j: int| 0 <= j < s.len() && s[j] == f.last();
            if j < s.len() - 1 {
                assert(!ahead(s[s.len() - 1], s[j]));
            }
            assert(!ahead(x, f.last()));
        }
    }
}

proof fn lemma_filter_ranked<P>(s: Seq<Ranked<P>>, pass: spec_fn(Ranked<P>) -> bool)
    ensures
        ranked(s.filter(pass)) == ranked(s).filter(pass),
    decreases s.len(),
{
    reveal(Seq::filter);
    if s.len() > 0 {
        let d = s.drop_last();
        lemma_filter_ranked(d, pass);
        lemma_ranked(d);
        lemma_filter_inserted(ranked(d), s.last(), pass);
        if pass(s.last()) {
            assert(s.filter(pass).drop_last() =~= d.filter(pass));
        }
    }
}

/// To rank all candidates and keep the first `k` that pass a filter is to filter
/// first and keep the best `k`.
pub proof fn law_filter_after_ranking<P>(
    s: Seq<Ranked<P>>,
    pass: spec_fn(Ranked<P>) -> bool,
    k: nat,
)
    ensures
        at_most(ranked(s).filter(pass), k) == best(s.filter(pass), k),
{
    lemma_filter_ranked(s, pass);
}

/// A candidate that is not ahead of the last of the best `k` leaves them as they
/// are: it need not be scored to the end.
pub proof fn law_worse_candidate_changes_nothing<P>(s: Seq<Ranked<P>>, x: Ranked<P>, k: nat)
    requires
        0 < k <= s.len(),
        !ahead(x, best(s, k).last()),
    ensures
        best(s.push(x), k) == best(s, k),
{
    lemma_ranked(s);
    assert(s.push(x).drop_last() =~= s);
    let b = best(s, k);
    lemma_insert_into_best(ranked(s), x, k);
    assert(inserted(b, x) == b.push(x));
    assert(at_most(b.push(x), k) =~= b);
}

/// The candidates have the same similarities and identities, whatever they are.
pub open spec fn aligned<P, Q>(s: Seq<Ranked<P>>, t: Seq<Ranked<Q>>) -> bool {
    &&& s.len() == t.len()
    &&& forall|i: int|
        #![trigger s[i]]
        #![trigger t[i]]
        0 <= i < s.len() ==> s[i].score == t[i].score && s[i].lid == t[i].lid
}

/// The candidates have the same similarities and identities, and what they are is
/// related.
pub open spec fn paired<P, Q>(
    s: Seq<Ranked<P>>,
    t: Seq<Ranked<Q>>,
    related: spec_fn(P, Q) -> bool,
) -> bool {
    &&& aligned(s, t)
    &&& forall|i: int|
        #![trigger s[i]]
        #![trigger t[i]]
        0 <= i < s.len() ==> related(s[i].item, t[i].item)
}

proof fn lemma_paired_before_last<P, Q>(
    s: Seq<Ranked<P>>,
    t: Seq<Ranked<Q>>,
    related: spec_fn(P, Q) -> bool,
)
    requires
        paired(s, t, related),
        s.len() > 0,
    ensures
        paired(s.drop_last(), t.drop_last(), related),
        s.last().score == t.last().score,
        s.last().lid == t.last().lid,
        related(s.last().item, t.last().item),
{
    let d = s.drop_last();
    let e = t.drop_last();
    assert(s[s.len() - 1].score == t[t.len() - 1].score);
    assert forall|i: int|
        #![trigger d[i]]
        #![trigger e[i]]
        0 <= i < d.len() implies d[i].score == e[i].score && d[i].lid == e[i].lid && related(
        d[i].item,
        e[i].item,
    ) by {
        assert(s[i] == d[i] && t[i] == e[i]);
    }
}

/// Paired candidates with one more pair are paired.
pub proof fn lemma_paired_push<P, Q>(
    s: Seq<Ranked<P>>,
    t: Seq<Ranked<Q>>,
    x: Ranked<P>,
    y: Ranked<Q>,
    related: spec_fn(P, Q) -> bool,
)
    requires
        paired(s, t, related),
        x.score == y.score,
        x.lid == y.lid,
        related(x.item, y.item),
    ensures
        paired(s.push(x), t.push(y), related),
{
    let d = s.push(x);
    let e = t.push(y);
    assert forall|i: int|
        #![trigger d[i]]
        #![trigger e[i]]
        0 <= i < d.len() implies d[i].score == e[i].score && d[i].lid == e[i].lid && related(
        d[i].item,
        e[i].item,
    ) by {
        if i < s.len() {
            assert(s[i] == d[i] && t[i] == e[i]);
        }
    }
}

proof fn lemma_inserted_paired<P, Q>(
    s: Seq<Ranked<P>>,
    t: Seq<Ranked<Q>>,
    x: Ranked<P>,
    y: Ranked<Q>,
    related: spec_fn(P, Q) -> bool,
)
    requires
        paired(s, t, related),
        x.score == y.score,
        x.lid == y.lid,
        related(x.item, y.item),
    ensures
        paired(inserted(s, x), inserted(t, y), related),
    decreases s.len(),
{
    if s.len() > 0 {
        lemma_paired_before_last(s, t, related);
        if ahead(x, s.last()) {
            lemma_inserted_paired(s.drop_last(), t.drop_last(), x, y, related);
            lemma_paired_push(
                inserted(s.drop_last(), x),
                inserted(t.drop_last(), y),
                s.last(),
                t.last(),
                related,
            );
        } else {
            lemma_paired_push(s, t, x, y, related);
        }
    }
}

proof fn lemma_ranked_paired<P, Q>(
    s: Seq<Ranked<P>>,
    t: Seq<Ranked<Q>>,
    related: spec_fn(P, Q) -> bool,
)
    requires
        paired(s, t, related),
    ensures
        paired(ranked(s), ranked(t), related),
    decreases s.len(),
{
    if s.len() > 0 {
        lemma_paired_before_last(s, t, related);
        lemma_ranked_paired(s.drop_last(), t.drop_last(), related);
        lemma_inserted_paired(
            ranked(s.drop_last()),
            ranked(t.drop_last()),
            s.last(),
            t.last(),
            related,
        );
    }
}

/// Candidates that are paired stay so when the best `k` of both are taken.
pub proof fn law_pairs_rank_alike<P, Q>(
    s: Seq<Ranked<P>>,
    t: Seq<Ranked<Q>>,
    related: spec_fn(P, Q) -> bool,
    k: nat,
)
    requires
        paired(s, t, related),
    ensures
        paired(best(s, k), best(t, k), related),
{
    lemma_ranked_paired(s, t, related);
    let a = ranked(s);
    let b = ranked(t);
    let x = best(s, k);
    let y = best(t, k);
    assert forall|i: int|
        #![trigger x[i]]
        #![trigger y[i]]
        0 <= i < x.len() implies x[i].score == y[i].score && x[i].lid == y[i].lid && related(
        x[i].item,
        y[i].item,
    ) by {
        assert(a[i] == x[i] && b[i] == y[i]);
    }
}

/// Paired candidates of which the same pass stay paired.
pub proof fn lemma_filter_paired<P, Q>(
    s: Seq<Ranked<P>>,
    t: Seq<Ranked<Q>>,
    related: spec_fn(P, Q) -> bool,
    p: spec_fn(Ranked<P>) -> bool,
    q: spec_fn(Ranked<Q>) -> bool,
)
    requires
        paired(s, t, related),
        forall|i: int|
            #![trigger s[i]]
            #![trigger t[i]]
            0 <= i < s.len() ==> p(s[i]) == q(t[i]),
    ensures
        paired(s.filter(p), t.filter(q), related),
    decreases s.len(),
{
    reveal(Seq::filter);
    if s.len() > 0 {
        let d = s.drop_last();
        let e = t.drop_last();
        lemma_paired_before_last(s, t, related);
        assert forall|i: int|
            #![trigger d[i]]
            #![trigger e[i]]
            0 <= i < d.len() implies p(d[i]) == q(e[i]) by {
            assert(s[i] == d[i] && t[i] == e[i]);
        }
        lemma_filter_paired(d, e, related, p, q);
        assert(p(s[s.len() - 1]) == q(t[t.len() - 1]));
        if p(s.last()) {
            lemma_paired_push(d.filter(p), e.filter(q), s.last(), t.last(), related);
        }
    }
}

/// Only similarities and identities rank candidates: those that agree in both
/// have the same best `k`, whatever stands beside them.
pub proof fn law_items_do_not_rank<P, Q>(s: Seq<Ranked<P>>, t: Seq<Ranked<Q>>, k: nat)
    requires
        aligned(s, t),
    ensures
        aligned(best(s, k), best(t, k)),
{
    law_pairs_rank_alike(s, t, |p: P, q: Q| true, k);
}

/// Candidates that come in order stay in the order in which they come.
pub proof fn law_ordered_candidates_stay<P>(s: Seq<Ranked<P>>)
    requires
        in_order(s),
    ensures
        ranked(s) == s,
    decreases s.len(),
{
    if s.len() > 0 {
        let d = s.drop_last();
        assert(in_order(d)) by {
            assert forall|i: int, j: int| 0 <= i < j < d.len() implies !ahead(
                #[trigger] d[j],
                #[trigger] d[i],
            ) by {
                assert(s[i] == d[i] && s[j] == d[j]);
            }
        }
        law_ordered_candidates_stay(d);
        if d.len() > 0 {
            assert(d.last() == s[s.len() - 2]);
        }
        assert(d.push(s.last()) =~= s);
    } else {
        assert(s =~= Seq::<Ranked<P>>::empty());
    }
}

/// The best candidates so far.
pub struct TopK<P> {
    limit: usize,
    items: Vec<Ranked<P>>,
    offered: Ghost<Seq<Ranked<P>>>,
}

impl<P> TopK<P> {
    /// How many are wanted.
    pub closed spec fn wanted(&self) -> usize {
        self.limit
    }

    /// All candidates so far.
    pub closed spec fn seen(&self) -> Seq<Ranked<P>> {
        self.offered@
    }

    #[verifier::type_invariant]
    spec fn wf(&self) -> bool {
        self.items@ == best(self.offered@, self.limit as nat)
    }

    /// No candidate yet.
    pub fn new(limit: usize) -> (r: Self)
        ensures
            r.wanted() == limit,
            r.seen() == Seq::<Ranked<P>>::empty(),
    {
        let items: Vec<Ranked<P>> = Vec::new();
        assert(items@ =~= best(Seq::<Ranked<P>>::empty(), limit as nat));
        TopK { limit, items, offered: Ghost(Seq::empty()) }
    }

    /// How many are wanted.
    pub fn limit(&self) -> (n: usize)
        ensures
            n == self.wanted(),
    {
        self.limit
    }

    /// The number of the best candidates.
    pub fn len(&self) -> (n: usize)
        ensures
            n == best(self.seen(), self.wanted() as nat).len(),
    {
        proof {
            use_type_invariant(self);
        }
        self.items.len()
    }

    /// The similarity of the last of the best candidates, once there are as many
    /// as wanted.
    pub fn threshold(&self) -> (r: Option<u64>)
        ensures
            r == ({
                let b = best(self.seen(), self.wanted() as nat);
                if b.len() == self.wanted() && b.len() > 0 {
                    Some(b.last().score)
                } else {
                    None
                }
            }),
    {
        proof {
            use_type_invariant(self);
        }
        let n: usize = self.items.len();
        if n == self.limit && n > 0 {
            Some(self.items[n - 1].score)
        } else {
            None
        }
    }

    /// Offers a candidate.
    pub fn offer(&mut self, score: u64, lid: u128, item: P)
        ensures
            final(self).wanted() == old(self).wanted(),
            final(self).seen() == old(self).seen().push((Ranked { score, lid, item })),
    {
        proof {
            use_type_invariant(&*self);
        }
        let x = Ranked { score, lid, item };
        let ghost xv = x;
        let ghost s = self.offered@;
        let ghost before = self.items@;
        let limit: usize = self.limit;
        let ghost all = s.push(xv);
        let mut rest: TopK<P> = TopK::new(limit);
        std::mem::swap(self, &mut rest);
        let mut items = rest.items;
        let mut p: usize = items.len();
        while p > 0 && is_ahead(x.score, x.lid, items[p - 1].score, items[p - 1].lid)
            invariant
                p <= items@.len(),
                x == xv,
                items@ == before,
                forall|j: int| p <= j < before.len() ==> ahead(xv, #[trigger] before[j]),
            decreases p,
        {
            p = p - 1;
        }
        proof {
            assert(p > 0 ==> !ahead(xv, before[p - 1]));
            lemma_insert_place(before, xv, p as int);
            lemma_ranked(s);
            lemma_insert_into_best(ranked(s), xv, limit as nat);
            assert(all.drop_last() =~= s);
            lemma_inserted(before, xv);
        }
        items.insert(p, x);
        assert(items@ =~= inserted(before, xv));
        if items.len() > limit {
            items.truncate(limit);
            assert(items@ =~= inserted(before, xv).take(limit as int));
        }
        assert(items@ == best(all, limit as nat));
        *self = TopK { limit, items, offered: Ghost(all) };
    }

    /// The best candidates, in order.
    pub fn into_best(self) -> (r: Vec<Ranked<P>>)
        ensures
            r@ == best(self.seen(), self.wanted() as nat),
    {
        proof {
            use_type_invariant(&self);
        }
        self.items
    }
}

proof fn lemma_insert_place<P>(s: Seq<Ranked<P>>, x: Ranked<P>, p: int)
    requires
        0 <= p <= s.len(),
        forall|j: int| p <= j < s.len() ==> ahead(x, #[trigger] s[j]),
        p > 0 ==> !ahead(x, s[p - 1]),
    ensures
        inserted(s, x) == s.insert(p, x),
    decreases s.len(),
{
    if s.len() == 0 {
        assert(s.insert(p, x) =~= seq![x]);
    } else if p == s.len() {
        assert(s.insert(p, x) =~= s.push(x));
    } else {
        assert(ahead(x, s[s.len() - 1]));
        lemma_insert_place(s.drop_last(), x, p);
        assert(s.insert(p, x) =~= s.drop_last().insert(p, x).push(s.last()));
    }
}

} // verus!
