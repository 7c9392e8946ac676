//! Sorting by a strict order.

use vstd::multiset::*;
use vstd::prelude::*;
use vstd::seq_lib::*;

verus! {

/// `lt` is a strict order in which incomparable items may stand for each
/// other.
pub open spec fn strict_order<T>(lt: spec_fn(T, T) -> bool) -> bool {
    &&& forall|a: T| !#[trigger] lt(a, a)
    &&& forall|a: T, b: T, c: T| #[trigger] lt(a, b) && #[trigger] lt(b, c) ==> lt(a, c)
    &&& forall|a: T, b: T, c: T| !#[trigger] lt(a, b) && !#[trigger] lt(b, c) ==> !lt(a, c)
}

/// No item comes after one that it precedes.
pub open spec fn sorted<T>(s: Seq<T>, lt: spec_fn(T, T) -> bool) -> bool {
    forall|i: int, j: int| 0 <= i < j < s.len() ==> !lt(#[trigger] s[j], #[trigger] s[i])
}

/// `f` decides `lt`.
pub open spec fn decides_order<T, F: Fn(&T, &T) -> bool>(f: F, lt: spec_fn(T, T) -> bool) -> bool {
    &&& forall|a: &T, b: &T| #[trigger] f.requires((a, b))
    &&& forall|a: &T, b: &T, r: bool| #[trigger] f.ensures((a, b), r) ==> r == lt(*a, *b)
}

/// No item comes before one that it follows.
spec fn sorted_down<T>(s: Seq<T>, lt: spec_fn(T, T) -> bool) -> bool {
    forall|i: int, j: int| 0 <= i < j < s.len() ==> !lt(#[trigger] s[i], #[trigger] s[j])
}

/// No item of `big` precedes one of `small`.
spec fn above<T>(big: Seq<T>, small: Seq<T>, lt: spec_fn(T, T) -> bool) -> bool {
    forall|i: int, j: int|
        0 <= i < big.len() && 0 <= j < small.len() ==> !lt(#[trigger] big[i], #[trigger] small[j])
}

/// The items in the opposite order.
fn turned<T>(v: Vec<T>, Ghost(lt): Ghost<spec_fn(T, T) -> bool>) -> (r: Vec<T>)
    requires
        sorted_down(v@, lt),
    ensures
        sorted(r@, lt),
        r@.to_multiset() == v@.to_multiset(),
        r@.len() == v@.len(),
{
    broadcast use group_to_multiset_ensures;

    let mut rest = v;
    let ghost all = rest@;
    let mut r: Vec<T> = Vec::new();
    proof {
        assert(r@.to_multiset() =~= Multiset::empty()) by {
            r@.to_multiset_ensures();
        }
    }
    while rest.len() > 0
        invariant
            rest@.len() + r@.len() == all.len(),
            rest@ == all.take(rest@.len() as int),
            sorted_down(all, lt),
            forall|i: int| 0 <= i < r@.len() ==> #[trigger] r@[i] == all[all.len() - 1 - i],
            rest@.to_multiset().add(r@.to_multiset()) == all.to_multiset(),
        decreases rest@.len(),
    {
        let ghost before = rest@;
        let ghost out = r@;
        match rest.pop() {
            Some(x) => {
                proof {
                    assert(before =~= rest@.push(x));
                    rest@.to_multiset_ensures();
                    out.to_multiset_ensures();
                    assert(rest@.push(x).to_multiset() =~= rest@.to_multiset().insert(x));
                    assert(out.push(x).to_multiset() =~= out.to_multiset().insert(x));
                }
                r.push(x);
                proof {
                    assert(rest@.to_multiset().add(r@.to_multiset()) =~= before.to_multiset().add(
                        out.to_multiset(),
                    ));
                }
            },
            None => {},
        }
        assert(rest@ =~= all.take(rest@.len() as int));
    }
    proof {
        assert(rest@ =~= Seq::<T>::empty());
        rest@.to_multiset_ensures();
        assert(rest@.to_multiset() =~= Multiset::empty());
        assert(r@.to_multiset() =~= all.to_multiset());
    }
    r
}

/// Merges two sorted lists.
fn merged<T, F: Fn(&T, &T) -> bool>(
    a: Vec<T>,
    b: Vec<T>,
    f: &F,
    Ghost(lt): Ghost<spec_fn(T, T) -> bool>,
) -> (r: Vec<T>)
    requires
        decides_order(*f, lt),
        strict_order(lt),
        sorted(a@, lt),
        sorted(b@, lt),
        a@.len() + b@.len() <= usize::MAX,
    ensures
        sorted(r@, lt),
        r@.to_multiset() == a@.to_multiset().add(b@.to_multiset()),
        r@.len() == a@.len() + b@.len(),
{
    let mut x = a;
    let mut y = b;
    let ghost total = a@.to_multiset().add(b@.to_multiset());
    let mut out: Vec<T> = Vec::new();
    proof {
        out@.to_multiset_ensures();
        assert(out@.to_multiset() =~= Multiset::empty());
        assert(x@.to_multiset().add(y@.to_multiset()).add(out@.to_multiset()) =~= total);
    }
    while x.len() > 0 || y.len() > 0
        invariant
            decides_order(*f, lt),
            strict_order(lt),
            sorted(x@, lt),
            sorted(y@, lt),
            sorted_down(out@, lt),
            above(out@, x@, lt),
            above(out@, y@, lt),
            x@.len() + y@.len() + out@.len() == a@.len() + b@.len(),
            x@.to_multiset().add(y@.to_multiset()).add(out@.to_multiset()) == total,
        decreases x@.len() + y@.len(),
    {
        let from_x = if y.len() == 0 {
            true
        } else if x.len() == 0 {
            false
        } else {
            f(&y[y.len() - 1], &x[x.len() - 1])
        };
        let ghost bx = x@;
        let ghost by = y@;
        let ghost bo = out@;
        if from_x {
            match x.pop() {
                Some(e) => {
                    out.push(e);
                    proof {
                        assert(bx =~= x@.push(e));
                        assert(bx.last() == e);
                        x@.to_multiset_ensures();
                        bo.to_multiset_ensures();
                        assert(x@.to_multiset().add(y@.to_multiset()).add(out@.to_multiset())
                            =~= bx.to_multiset().add(by.to_multiset()).add(bo.to_multiset()));
                        assert forall|j: int| 0 <= j < y@.len() implies !lt(e, #[trigger] y@[j]) by {
                            let l = y@[y@.len() - 1];
                            assert(!lt(e, l));
                            if j < y@.len() - 1 {
                                assert(!lt(l, y@[j]));
                            }
                        }
                        assert forall|i: int, j: int|
                            0 <= i < out@.len() && 0 <= j < x@.len() implies !lt(
                            #[trigger] out@[i],
                            #[trigger] x@[j],
                        ) by {
                            assert(x@[j] == bx[j]);
                            if i < bo.len() {
                                assert(out@[i] == bo[i]);
                            } else {
                                assert(out@[i] == bx[bx.len() - 1]);
                            }
                        }
                        assert forall|i: int, j: int|
                            0 <= i < j < out@.len() implies !lt(
                            #[trigger] out@[i],
                            #[trigger] out@[j],
                        ) by {
                            assert(out@[i] == bo[i]);
                            if j == bo.len() {
                                assert(out@[j] == bx[bx.len() - 1]);
                            } else {
                                assert(out@[j] == bo[j]);
                            }
                        }
                        assert forall|i: int, j: int|
                            0 <= i < out@.len() && 0 <= j < y@.len() implies !lt(
                            #[trigger] out@[i],
                            #[trigger] y@[j],
                        ) by {
                            if i < bo.len() {
                                assert(out@[i] == bo[i]);
                            }
                        }
                    }
                },
                None => {},
            }
        } else {
            match y.pop() {
                Some(e) => {
                    out.push(e);
                    proof {
                        assert(by =~= y@.push(e));
                        assert(by.last() == e);
                        y@.to_multiset_ensures();
                        bo.to_multiset_ensures();
                        assert(x@.to_multiset().add(y@.to_multiset()).add(out@.to_multiset())
                            =~= bx.to_multiset().add(by.to_multiset()).add(bo.to_multiset()));
                        assert forall|j: int| 0 <= j < x@.len() implies !lt(e, #[trigger] x@[j]) by {
                            let l = x@[x@.len() - 1];
                            assert(!lt(e, l));
                            if j < x@.len() - 1 {
                                assert(!lt(l, x@[j]));
                            }
                        }
                        assert forall|i: int, j: int|
                            0 <= i < out@.len() && 0 <= j < y@.len() implies !lt(
                            #[trigger] out@[i],
                            #[trigger] y@[j],
                        ) by {
                            assert(y@[j] == by[j]);
                            if i < bo.len() {
                                assert(out@[i] == bo[i]);
                            } else {
                                assert(out@[i] == by[by.len() - 1]);
                            }
                        }
                        assert forall|i: int, j: int|
                            0 <= i < j < out@.len() implies !lt(
                            #[trigger] out@[i],
                            #[trigger] out@[j],
                        ) by {
                            assert(out@[i] == bo[i]);
                            if j == bo.len() {
                                assert(out@[j] == by[by.len() - 1]);
                            } else {
                                assert(out@[j] == bo[j]);
                            }
                        }
                        assert forall|i: int, j: int|
                            0 <= i < out@.len() && 0 <= j < x@.len() implies !lt(
                            #[trigger] out@[i],
                            #[trigger] x@[j],
                        ) by {
                            if i < bo.len() {
                                assert(out@[i] == bo[i]);
                            }
                        }
                    }
                },
                None => {},
            }
        }
    }
    proof {
        assert(x@ =~= Seq::<T>::empty());
        assert(y@ =~= Seq::<T>::empty());
        x@.to_multiset_ensures();
        assert(x@.to_multiset() =~= Multiset::empty());
        assert(out@.to_multiset() =~= total);
    }
    turned(out, Ghost(lt))
}

/// The items from last to first.
pub fn reversed<T>(v: Vec<T>) -> (r: Vec<T>)
    ensures
        r@.len() == v@.len(),
        forall|i: int| 0 <= i < r@.len() ==> #[trigger] r@[i] == v@[v@.len() - 1 - i],
{
    let ghost all = v@;
    let mut rest = v;
    let mut r: Vec<T> = Vec::new();
    while rest.len() > 0
        invariant
            rest@.len() + r@.len() == all.len(),
            rest@ == all.take(rest@.len() as int),
            forall|i: int| 0 <= i < r@.len() ==> #[trigger] r@[i] == all[all.len() - 1 - i],
        decreases rest@.len(),
    {
        match rest.pop() {
            Some(x) => {
                r.push(x);
            },
            None => {},
        }
        assert(rest@ =~= all.take(rest@.len() as int));
    }
    r
}

/// The items, sorted.
pub(crate) fn merge_sort<T, F: Fn(&T, &T) -> bool>(
    v: Vec<T>,
    f: &F,
    Ghost(lt): Ghost<spec_fn(T, T) -> bool>,
) -> (r: Vec<T>)
    requires
        decides_order(*f, lt),
        strict_order(lt),
    ensures
        sorted(r@, lt),
        r@.to_multiset() == v@.to_multiset(),
        r@.len() == v@.len(),
    decreases v@.len(),
{
    let n: usize = v.len();
    if n < 2 {
        return v;
    }
    let ghost all = v@;
    let mut head = v;
    let tail = head.split_off(n / 2);
    proof {
        assert(all =~= head@ + tail@);
        lemma_multiset_commutative(head@, tail@);
    }
    let a = merge_sort(head, f, Ghost(lt));
    let b = merge_sort(tail, f, Ghost(lt));
    merged(a, b, f, Ghost(lt))
}

/// Mapping the items of two arrangements gives arrangements of the same items.
pub proof fn lemma_map_keeps_items<T, U>(a: Seq<T>, b: Seq<T>, f: spec_fn(T) -> U)
    requires
        a.to_multiset() == b.to_multiset(),
    ensures
        a.map_values(f).to_multiset() == b.map_values(f).to_multiset(),
    decreases a.len(),
{
    a.to_multiset_ensures();
    b.to_multiset_ensures();
    let fa = a.map_values(f);
    let fb = b.map_values(f);
    if a.len() == 0 {
        assert(fa =~= Seq::<U>::empty());
        assert(fb =~= Seq::<U>::empty());
    } else {
        let x = a.last();
        let less = a.drop_last();
        assert(a[a.len() - 1] == x);
        assert(a.contains(x));
        assert(b.to_multiset().count(x) > 0);
        let j = choose|j: int| 0 <= j < b.len() && b[j] == x;
        let rest = b.remove(j);
        assert(less =~= a.remove(a.len() - 1));
        assert(less.to_multiset() == rest.to_multiset());
        lemma_map_keeps_items(less, rest, f);
        assert(fa =~= less.map_values(f).push(f(x)));
        assert(rest.map_values(f) =~= fb.remove(j));
        less.map_values(f).to_multiset_ensures();
        fb.to_multiset_ensures();
        assert(fb.to_multiset().remove(f(x)) == fb.remove(j).to_multiset());
        assert(fb[j] == f(x));
        assert(fb.contains(f(x)));
        assert(fb.to_multiset() =~= fb.to_multiset().remove(f(x)).insert(f(x)));
    }
}

/// One of any two different items precedes the other.
pub open spec fn told_apart<T>(s: Seq<T>, lt: spec_fn(T, T) -> bool) -> bool {
    forall|x: T, y: T|
        #![trigger s.contains(x), s.contains(y)]
        s.contains(x) && s.contains(y) && x != y ==> lt(x, y) || lt(y, x)
}

/// Items that are told apart have one sorted arrangement.
pub proof fn lemma_sorted_is_unique<T>(a: Seq<T>, b: Seq<T>, lt: spec_fn(T, T) -> bool)
    requires
        a.to_multiset() == b.to_multiset(),
        sorted(a, lt),
        sorted(b, lt),
        told_apart(a, lt),
    ensures
        a == b,
    decreases a.len(),
{
    a.to_multiset_ensures();
    b.to_multiset_ensures();
    if a.len() == 0 {
        assert(a =~= b);
    } else {
        let x = a.last();
        let y = b.last();
        assert(a[a.len() - 1] == x && b[b.len() - 1] == y);
        assert(a.contains(x) && b.contains(y));
        assert(b.to_multiset().count(x) > 0 && a.to_multiset().count(y) > 0);
        assert(b.contains(x) && a.contains(y));
        if x != y {
            let i = choose|i: int| 0 <= i < b.len() && b[i] == x;
            let j = choose|j: int| 0 <= j < a.len() && a[j] == y;
            assert(!lt(b[b.len() - 1], b[i]));
            assert(!lt(a[a.len() - 1], a[j]));
        }
        let la = a.drop_last();
        let lb = b.drop_last();
        assert(la =~= a.remove(a.len() - 1));
        assert(lb =~= b.remove(b.len() - 1));
        assert(sorted(la, lt)) by {
            assert forall|i: int, j: int| 0 <= i < j < la.len() implies !lt(
                #[trigger] la[j],
                #[trigger] la[i],
            ) by {
                assert(la[i] == a[i] && la[j] == a[j]);
            }
        }
        assert(sorted(lb, lt)) by {
            assert forall|i: int, j: int| 0 <= i < j < lb.len() implies !lt(
                #[trigger] lb[j],
                #[trigger] lb[i],
            ) by {
                assert(lb[i] == b[i] && lb[j] == b[j]);
            }
        }
        assert(told_apart(la, lt)) by {
            assert forall|u: T, v: T|
                #![trigger la.contains(u), la.contains(v)]
                la.contains(u) && la.contains(v) && u != v implies lt(u, v) || lt(v, u) by {
                let i = choose|i: int| 0 <= i < la.len() && la[i] == u;
                let j = choose|j: int| 0 <= j < la.len() && la[j] == v;
                assert(a[i] == u && a[j] == v);
                assert(a.contains(u) && a.contains(v));
            }
        }
        lemma_sorted_is_unique(la, lb, lt);
        assert(a =~= la.push(x));
        assert(b =~= lb.push(y));
    }
}

} // verus!
