//! A set of byte strings.

use crate::bytes;
use vstd::prelude::*;

verus! {

/// The strings increase strictly.
pub open spec fn increasing(s: Seq<Vec<u8>>) -> bool {
    forall|i: int, j: int|
        0 <= i < j < s.len() ==> bytes::lex_lt((#[trigger] s[i])@, (#[trigger] s[j])@)
}

/// A set of byte strings, kept in order.
pub struct ByteSet {
    items: Vec<Vec<u8>>,
}

impl View for ByteSet {
    type V = Set<Seq<u8>>;

    closed spec fn view(&self) -> Set<Seq<u8>> {
        Set::new(|k: Seq<u8>| exists|i: int| 0 <= i < self.items@.len() && #[trigger] self.items@[i]@ == k)
    }
}

impl ByteSet {
    #[verifier::type_invariant]
    spec fn wf(&self) -> bool {
        increasing(self.items@)
    }

    /// The empty set.
    pub fn new() -> (r: Self)
        ensures
            r@ == Set::<Seq<u8>>::empty(),
    {
        let r = ByteSet { items: Vec::new() };
        assert(r@ =~= Set::<Seq<u8>>::empty());
        r
    }

    /// The number of strings that sort before `key`.
    fn place(&self, key: &[u8]) -> (p: usize)
        ensures
            p <= self.items@.len(),
            forall|i: int| 0 <= i < p ==> bytes::lex_lt((#[trigger] self.items@[i])@, key@),
            forall|i: int|
                p <= i < self.items@.len() ==> !bytes::lex_lt((#[trigger] self.items@[i])@, key@),
    {
        proof {
            use_type_invariant(self);
        }
        let mut lo: usize = 0;
        let mut hi: usize = self.items.len();
        while lo < hi
            invariant
                lo <= hi <= self.items@.len(),
                increasing(self.items@),
                forall|i: int| 0 <= i < lo ==> bytes::lex_lt((#[trigger] self.items@[i])@, key@),
                forall|i: int|
                    hi <= i < self.items@.len() ==> !bytes::lex_lt(
                        (#[trigger] self.items@[i])@,
                        key@,
                    ),
            decreases hi - lo,
        {
            let mid: usize = lo + (hi - lo) / 2;
            if bytes::bytes_less(self.items[mid].as_slice(), key) {
                proof {
                    assert forall|i: int| 0 <= i < mid + 1 implies bytes::lex_lt(
                        (#[trigger] self.items@[i])@,
                        key@,
                    ) by {
                        if i < mid {
                            bytes::lemma_lex_transitive(
                                self.items@[i]@,
                                self.items@[mid as int]@,
                                key@,
                            );
                        }
                    }
                }
                lo = mid + 1;
            } else {
                proof {
                    assert forall|i: int| mid <= i < self.items@.len() implies !bytes::lex_lt(
                        (#[trigger] self.items@[i])@,
                        key@,
                    ) by {
                        if i > mid && bytes::lex_lt(self.items@[i]@, key@) {
                            bytes::lemma_lex_transitive(
                                self.items@[mid as int]@,
                                self.items@[i]@,
                                key@,
                            );
                        }
                    }
                }
                hi = mid;
            }
        }
        lo
    }

    /// Whether the set has the string.
    pub fn contains(&self, key: &[u8]) -> (r: bool)
        ensures
            r == self@.contains(key@),
    {
        let p: usize = self.place(key);
        let r = p < self.items.len() && bytes::bytes_equal(self.items[p].as_slice(), key);
        proof {
            use_type_invariant(self);
            if r {
                assert(self.items@[p as int]@ == key@);
            } else if self@.contains(key@) {
                let i = choose|i: int|
                    0 <= i < self.items@.len() && #[trigger] self.items@[i]@ == key@;
                bytes::lemma_lex_irreflexive(key@);
                assert(i >= p);
                if i > p {
                    assert(bytes::lex_lt(self.items@[p as int]@, self.items@[i]@));
                }
            }
        }
        r
    }

    /// Adds a string and says whether it is new.
    pub fn insert(&mut self, key: Vec<u8>) -> (r: bool)
        ensures
            r == !old(self)@.contains(key@),
            final(self)@ == old(self)@.insert(key@),
    {
        proof {
            use_type_invariant(&*self);
        }
        let ghost before = self@;
        let ghost kv = key@;
        if self.contains(key.as_slice()) {
            assert(self@ =~= before.insert(kv));
            return false;
        }
        let p: usize = self.place(key.as_slice());
        let mut items: Vec<Vec<u8>> = Vec::new();
        std::mem::swap(&mut items, &mut self.items);
        let ghost was = items@;
        items.insert(p, key);
        proof {
            assert forall|i: int, j: int| 0 <= i < j < items@.len() implies bytes::lex_lt(
                (#[trigger] items@[i])@,
                (#[trigger] items@[j])@,
            ) by {
                let a = if i < p {
                    i
                } else {
                    i - 1
                };
                let b = if j < p {
                    j
                } else {
                    j - 1
                };
                if i == p {
                    assert(items@[j] == was[b]);
                    bytes::lemma_lex_total(kv, was[b]@);
                    assert(was[b]@ != kv) by {
                        if was[b]@ == kv {
                            assert(before.contains(kv));
                        }
                    }
                } else if j == p {
                    assert(items@[i] == was[a]);
                } else {
                    assert(items@[i] == was[a] && items@[j] == was[b]);
                    assert(bytes::lex_lt(was[a]@, was[b]@));
                }
            }
        }
        let ghost now = items@;
        self.items = items;
        proof {
            assert forall|k: Seq<u8>|
                #![trigger self@.contains(k)]
                self@.contains(k) == before.insert(kv).contains(k) by {
                if self@.contains(k) {
                    let i = choose|i: int| 0 <= i < now.len() && #[trigger] now[i]@ == k;
                    if i < p {
                        assert(was[i] == now[i]);
                    } else if i > p {
                        assert(was[i - 1] == now[i]);
                    }
                }
                if before.contains(k) {
                    let i = choose|i: int| 0 <= i < was.len() && #[trigger] was[i]@ == k;
                    if i < p {
                        assert(now[i] == was[i]);
                    } else {
                        assert(now[i + 1] == was[i]);
                    }
                }
                if k == kv {
                    assert(now[p as int]@ == k);
                }
            }
            assert(self@ =~= before.insert(kv));
        }
        true
    }
}

} // verus!
