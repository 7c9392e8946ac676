//! Folding the deltas of a rollup.

use crate::bytes;
use crate::reserved_keys;
use vstd::prelude::*;

verus! {

/// `states` is the course of a fold: it starts at `zero`, and each readable
/// value is merged in.
pub open spec fn folds<D, R: Fn(&[u8]) -> Option<D>, M: Fn(&D, &D) -> D>(
    values: Seq<&[u8]>,
    zero: D,
    read: R,
    merge: M,
    states: Seq<D>,
) -> bool {
    &&& states.len() == values.len() + 1
    &&& states[0] == zero
    &&& forall|i: int|
        0 <= i < values.len() ==> fold_step(#[trigger] values[i], read, merge, states[i], states[i + 1])
}

/// One value of a fold: merged in if it can be read, passed over if not.
pub open spec fn fold_step<D, R: Fn(&[u8]) -> Option<D>, M: Fn(&D, &D) -> D>(
    value: &[u8],
    read: R,
    merge: M,
    before: D,
    after: D,
) -> bool {
    exists|d: Option<D>| #[trigger]
        read.ensures((value,), d) && match d {
            Some(x) => merge.ensures((&before, &x), after),
            None => after == before,
        }
}

/// Folds the appended deltas of a group's rollup; the entries of every other
/// keyspace keep their newest value.
pub struct RollupMergeOperator;

impl RollupMergeOperator {
    /// Whether the key's values are folded: those under the rollup prefix.
    pub fn owns(&self, key: &[u8]) -> (r: bool)
        ensures
            r == bytes::starts_with(key@, reserved_keys::ROLLUP@),
    {
        let prefix: [u8; 2] = reserved_keys::ROLLUP;
        bytes::bytes_start_with(key, prefix.as_slice())
    }

    /// Folds the values of a key into one. Values that cannot be read are
    /// passed over.
    pub fn merge<D, R: Fn(&[u8]) -> Option<D>, M: Fn(&D, &D) -> D, W: Fn(&D) -> Vec<u8>>(
        &self,
        values: &Vec<&[u8]>,
        zero: D,
        read: R,
        merge: M,
        write: W,
    ) -> (r: Vec<u8>)
        requires
            forall|b: &[u8]| #[trigger] read.requires((b,)),
            forall|x: &D, y: &D| #[trigger] merge.requires((x, y)),
            forall|x: &D| #[trigger] write.requires((x,)),
        ensures
            exists|states: Seq<D>| #[trigger]
                folds(values@, zero, read, merge, states) && write.ensures((&states.last(),), r),
    {
        let mut acc = zero;
        let ghost mut states: Seq<D> = seq![zero];
        let mut i: usize = 0;
        while i < values.len()
            invariant
                i <= values@.len(),
                forall|b: &[u8]| #[trigger] read.requires((b,)),
                forall|x: &D, y: &D| #[trigger] merge.requires((x, y)),
                states.len() == i + 1,
                states[0] == zero,
                states[i as int] == acc,
                forall|j: int|
                    0 <= j < i ==> fold_step(
                        #[trigger] values@[j],
                        read,
                        merge,
                        states[j],
                        states[j + 1],
                    ),
            decreases values@.len() - i,
        {
            let v: &[u8] = values[i];
            let d = read(v);
            let ghost before = acc;
            let ghost past = states;
            match &d {
                Some(x) => {
                    acc = merge(&acc, x);
                },
                None => {},
            }
            proof {
                assert(fold_step(v, read, merge, before, acc)) by {
                    assert(read.ensures((v,), d));
                }
                states = states.push(acc);
                assert forall|j: int| 0 <= j < i + 1 implies fold_step(
                    #[trigger] values@[j],
                    read,
                    merge,
                    states[j],
                    states[j + 1],
                ) by {
                    if j < i {
                        assert(states[j] == past[j] && states[j + 1] == past[j + 1]);
                    }
                }
            }
            i = i + 1;
        }
        let r = write(&acc);
        assert(folds(values@, zero, read, merge, states));
        assert(states.last() == acc);
        r
    }
}

/// The values of a chain that can be read, in their order.
pub open spec fn readable<D>(values: Seq<&[u8]>, read: spec_fn(Seq<u8>) -> Option<D>) -> Seq<D>
    decreases values.len(),
{
    if values.len() == 0 {
        Seq::empty()
    } else {
        let before = readable(values.drop_last(), read);
        match read(values.last()@) {
            Some(d) => before.push(d),
            None => before,
        }
    }
}

/// What a chain of deltas folds to.
pub open spec fn folded<D>(deltas: Seq<D>, zero: D, merge: spec_fn(D, D) -> D) -> D {
    deltas.fold_left(zero, merge)
}

/// Deltas add up: their order and grouping do not matter, and `zero` adds nothing.
pub open spec fn adds_up<D>(zero: D, merge: spec_fn(D, D) -> D) -> bool {
    &&& forall|x: D, y: D| #[trigger] merge(x, y) == merge(y, x)
    &&& forall|x: D, y: D, z: D| #[trigger] merge(merge(x, y), z) == merge(x, merge(y, z))
    &&& forall|x: D| #[trigger] merge(zero, x) == x
}

/// Where reading and merging are functions, merging the values of a key folds
/// those that can be read.
pub proof fn law_merge_is_fold<D, R: Fn(&[u8]) -> Option<D>, M: Fn(&D, &D) -> D>(
    values: Seq<&[u8]>,
    zero: D,
    read: R,
    merge: M,
    states: Seq<D>,
    read_of: spec_fn(Seq<u8>) -> Option<D>,
    merge_of: spec_fn(D, D) -> D,
)
    requires
        folds(values, zero, read, merge, states),
        forall|b: &[u8], d: Option<D>| #[trigger] read.ensures((b,), d) ==> d == read_of(b@),
        forall|x: &D, y: &D, z: D| #[trigger]
            merge.ensures((x, y), z) ==> z == merge_of(*x, *y),
    ensures
        states.last() == folded(readable(values, read_of), zero, merge_of),
    decreases values.len(),
{
    if values.len() > 0 {
        let v = values.drop_last();
        let st = states.drop_last();
        assert(folds(v, zero, read, merge, st)) by {
            assert forall|i: int| 0 <= i < v.len() implies fold_step(
                #[trigger] v[i],
                read,
                merge,
                st[i],
                st[i + 1],
            ) by {
                assert(values[i] == v[i]);
            }
        }
        law_merge_is_fold(v, zero, read, merge, st, read_of, merge_of);
        let n = values.len() - 1;
        assert(fold_step(values[n], read, merge, states[n], states[n + 1]));
        assert(st.last() == states[n]);
        let before = readable(v, read_of);
        if let Some(d) = read_of(values.last()@) {
            assert(before.push(d).drop_last() =~= before);
        }
    }
}

/// The order in which deltas were appended does not matter.
pub proof fn law_order_is_irrelevant<D>(
    a: Seq<D>,
    b: Seq<D>,
    zero: D,
    merge: spec_fn(D, D) -> D,
)
    requires
        adds_up(zero, merge),
        a.to_multiset() == b.to_multiset(),
    ensures
        folded(a, zero, merge) == folded(b, zero, merge),
{
    assert forall|x: D, y: D, v: D| #[trigger] merge(merge(v, x), y) == merge(
        merge(v, y),
        x,
    ) by {
        assert(merge(merge(v, x), y) == merge(v, merge(x, y)));
        assert(merge(merge(v, y), x) == merge(v, merge(y, x)));
    }
    vstd::seq_lib::lemma_fold_left_permutation(a, b, merge, zero);
}

proof fn lemma_fold_from<D>(start: D, s: Seq<D>, zero: D, merge: spec_fn(D, D) -> D)
    requires
        adds_up(zero, merge),
    ensures
        s.fold_left(start, merge) == merge(start, folded(s, zero, merge)),
    decreases s.len(),
{
    if s.len() == 0 {
        assert(merge(start, zero) == merge(zero, start));
    } else {
        lemma_fold_from(start, s.drop_last(), zero, merge);
        let f = folded(s.drop_last(), zero, merge);
        assert(merge(merge(start, f), s.last()) == merge(start, merge(f, s.last())));
    }
}

/// To collapse some deltas of a chain into the one that they fold to changes
/// nothing of what the chain folds to.
pub proof fn law_compaction_changes_nothing<D>(
    newer: Seq<D>,
    collapsed: Seq<D>,
    older: Seq<D>,
    zero: D,
    merge: spec_fn(D, D) -> D,
)
    requires
        adds_up(zero, merge),
    ensures
        folded(newer.push(folded(collapsed, zero, merge)) + older, zero, merge) == folded(
            newer + collapsed + older,
            zero,
            merge,
        ),
{
    let f = folded(collapsed, zero, merge);
    let n = folded(newer, zero, merge);
    lemma_fold_concat(newer.push(f), older, zero, merge);
    lemma_fold_concat(newer + collapsed, older, zero, merge);
    lemma_fold_concat(newer, collapsed, zero, merge);
    lemma_fold_from(n, collapsed, zero, merge);
    assert(newer.push(f).drop_last() =~= newer);
    assert(folded(newer.push(f), zero, merge) == merge(n, f));
}

proof fn lemma_fold_concat<D>(a: Seq<D>, b: Seq<D>, zero: D, merge: spec_fn(D, D) -> D)
    ensures
        folded(a + b, zero, merge) == b.fold_left(folded(a, zero, merge), merge),
{
    let s = a + b;
    s.lemma_fold_left_split(zero, merge, a.len() as int);
    assert(s.subrange(0, a.len() as int) =~= a);
    assert(s.subrange(a.len() as int, s.len() as int) =~= b);
}

} // verus!
