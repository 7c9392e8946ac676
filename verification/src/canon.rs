//! The canonical text of a value and the hash that places records.

use crate::text;
use crate::value::{Value, ValueV};
use vstd::prelude::*;
use vstd::string::*;

verus! {

/// The storage layer's conventions: how a text hashes to a bucket, and how a
/// value that is neither a text, an integer nor a boolean reads.
pub struct Canon<H, R> {
    pub hash: H,
    pub render: R,
}

impl<H: Fn(&str) -> u64, R: Fn(&Value) -> String> Canon<H, R> {
    /// Both conventions accept everything and depend on nothing but what the
    /// argument stands for.
    pub open spec fn sound(&self) -> bool {
        &&& forall|s: &str| #[trigger] self.hash.requires((s,))
        &&& forall|s: &str, t: &str, a: u64, b: u64|
            #![trigger self.hash.ensures((s,), a), self.hash.ensures((t,), b)]
            self.hash.ensures((s,), a) && self.hash.ensures((t,), b) && s@ == t@ ==> a == b
        &&& forall|v: &Value| #[trigger] self.render.requires((v,))
        &&& forall|v: &Value, w: &Value, a: String, b: String|
            #![trigger self.render.ensures((v,), a), self.render.ensures((w,), b)]
            self.render.ensures((v,), a) && self.render.ensures((w,), b) && v@ == w@ ==> a@ == b@
    }

    /// The hash of a text.
    pub open spec fn hash_of(&self, s: Seq<char>) -> u64 {
        choose|h: u64| self.hashes_to(s, h)
    }

    /// `h` is a hash of the text.
    pub open spec fn hashes_to(&self, s: Seq<char>, h: u64) -> bool {
        exists|t: &str| t@ == s && #[trigger] self.hash.ensures((t,), h)
    }

    /// How a value reads.
    pub open spec fn reading_of(&self, v: ValueV) -> Seq<char> {
        choose|s: Seq<char>| self.reads_as(v, s)
    }

    /// `s` is a reading of the value.
    pub open spec fn reads_as(&self, v: ValueV, s: Seq<char>) -> bool {
        exists|w: &Value, t: String|
            w@ == v && t@ == s && #[trigger] self.render.ensures((w,), t)
    }

    /// The canonical text of a value, for anchor keys and for hashing.
    pub open spec fn anchor_text(&self, v: ValueV) -> Seq<char> {
        match v {
            ValueV::Text(s) => s,
            ValueV::Int(n) => text::decimal(n as int),
            ValueV::Bool(b) => if b {
                "true"@
            } else {
                "false"@
            },
            _ => self.reading_of(v),
        }
    }

    /// The hash of a text.
    pub fn hash_text(&self, s: &str) -> (h: u64)
        requires
            self.sound(),
        ensures
            h == self.hash_of(s@),
    {
        let h: u64 = (self.hash)(s);
        assert(self.hashes_to(s@, h));
        h
    }

    /// How a value reads.
    pub fn read_value(&self, v: &Value) -> (r: String)
        requires
            self.sound(),
        ensures
            r@ == self.reading_of(v@),
    {
        let t = (self.render)(v);
        assert(self.reads_as(v@, t@));
        t
    }

    /// The canonical text of a value.
    pub fn value_to_anchor_string(&self, v: &Value) -> (r: String)
        requires
            self.sound(),
        ensures
            r@ == self.anchor_text(v@),
    {
        match v {
            Value::Text(s) => s.clone(),
            Value::Int(n) => text::decimal_text(*n as i128),
            Value::Bool(b) => if *b {
                "true".to_owned()
            } else {
                "false".to_owned()
            },
            _ => self.read_value(v),
        }
    }
}

/// What a sequence of value texts folds to: the texts joined by a zero
/// character.
pub open spec fn folded(parts: Seq<Seq<char>>) -> Seq<char> {
    text::joined(parts, seq!['\0'])
}

/// The canonical texts of the values.
pub open spec fn anchor_texts<H: Fn(&str) -> u64, R: Fn(&Value) -> String>(
    canon: Canon<H, R>,
    vals: Seq<ValueV>,
) -> Seq<Seq<char>> {
    Seq::new(vals.len(), |i: int| canon.anchor_text(vals[i]))
}

/// The values of named values.
pub open spec fn pair_values(pairs: Seq<(String, Value)>) -> Seq<ValueV> {
    Seq::new(pairs.len(), |i: int| pairs[i].1@)
}

/// The hash that places a record by the values of its gravity fields.
pub open spec fn gravity_hash<H: Fn(&str) -> u64, R: Fn(&Value) -> String>(
    canon: Canon<H, R>,
    vals: Seq<ValueV>,
) -> u64 {
    canon.hash_of(folded(anchor_texts(canon, vals)))
}

/// The hash that places a record by its gravity fields. It folds the values
/// alone: the names of the fields do not enter.
pub fn compute_gravity_hash<H: Fn(&str) -> u64, R: Fn(&Value) -> String>(
    canon: &Canon<H, R>,
    gravity_fields: &[(String, Value)],
) -> (h: u64)
    requires
        canon.sound(),
    ensures
        h == gravity_hash(*canon, pair_values(gravity_fields@)),
{
    let ghost texts = anchor_texts(*canon, pair_values(gravity_fields@));
    let mut combined: String = String::new();
    let mut i: usize = 0;
    while i < gravity_fields.len()
        invariant
            i <= gravity_fields@.len(),
            canon.sound(),
            texts == anchor_texts(*canon, pair_values(gravity_fields@)),
            combined@ == folded(texts.take(i as int)),
        decreases gravity_fields@.len() - i,
    {
        let part = canon.value_to_anchor_string(&gravity_fields[i].1);
        let ghost before = texts.take(i as int);
        let ghost after = texts.take(i + 1);
        assert(after.drop_last() =~= before);
        assert(after.last() == part@);
        if i > 0 {
            combined.push('\0');
        }
        combined = text::join2(combined.as_str(), part.as_str());
        assert(combined@ =~= folded(after));
        i = i + 1;
    }
    assert(texts.take(i as int) =~= texts);
    canon.hash_text(combined.as_str())
}

/// Values hash as their canonical texts joined by a zero character do, whichever of
/// them are empty.
pub proof fn law_fold_is_join<H: Fn(&str) -> u64, R: Fn(&Value) -> String>(
    canon: Canon<H, R>,
    vals: Seq<ValueV>,
)
    ensures
        folded(anchor_texts(canon, vals)) == text::joined(
            anchor_texts(canon, vals),
            seq!['\0'],
        ),
        gravity_hash(canon, vals) == canon.hash_of(
            text::joined(anchor_texts(canon, vals), seq!['\0']),
        ),
{
}

/// Different tuples of values fold to different texts, as long as no value holds the
/// zero character that separates them: how many values there are, and which is
/// which, is not lost.
pub proof fn law_fold_keeps_values(a: Seq<Seq<char>>, b: Seq<Seq<char>>)
    requires
        a.len() > 0,
        b.len() > 0,
        forall|i: int| 0 <= i < a.len() ==> !(#[trigger] a[i]).contains('\0'),
        forall|i: int| 0 <= i < b.len() ==> !(#[trigger] b[i]).contains('\0'),
        folded(a) == folded(b),
    ensures
        a == b,
    decreases a.len(),
{
    let x = folded(a);
    let la = a.last();
    let lb = b.last();
    lemma_fold_splits(a);
    lemma_fold_splits(b);
    let n = x.len();
    // The last zero character stands before the last value on both sides.
    if a.len() > 1 && b.len() > 1 {
        let p = n - la.len() - 1;
        let q = n - lb.len() - 1;
        if p < q {
            assert(la[q - p - 1] == x[q]);
            assert(la.contains('\0'));
        }
        if q < p {
            assert(lb[p - q - 1] == x[p]);
            assert(lb.contains('\0'));
        }
        assert(la =~= x.skip(p + 1));
        assert(lb =~= x.skip(p + 1));
        assert(folded(a.drop_last()) =~= x.take(p));
        assert(folded(b.drop_last()) =~= x.take(p));
        law_fold_keeps_values(a.drop_last(), b.drop_last());
        assert(a =~= a.drop_last().push(la));
        assert(b =~= b.drop_last().push(lb));
    } else if a.len() > 1 {
        let p = n - la.len() - 1;
        assert(lb[p] == '\0');
        assert(lb.contains('\0'));
    } else if b.len() > 1 {
        let q = n - lb.len() - 1;
        assert(la[q] == '\0');
        assert(la.contains('\0'));
    } else {
        assert(a =~= seq![la]);
        assert(b =~= seq![lb]);
    }
}

proof fn lemma_fold_splits(s: Seq<Seq<char>>)
    requires
        s.len() > 0,
    ensures
        s.len() == 1 ==> folded(s) == s.last(),
        s.len() > 1 ==> folded(s) == folded(s.drop_last()) + seq!['\0'] + s.last(),
{
    if s.len() == 1 {
        assert(folded(s) =~= s.last());
    }
}

/// The bucket depends on the values of the gravity fields alone: the same
/// values under other names hash alike.
pub proof fn law_hash_ignores_names<H: Fn(&str) -> u64, R: Fn(&Value) -> String>(
    canon: Canon<H, R>,
    a: Seq<(String, Value)>,
    b: Seq<(String, Value)>,
)
    requires
        a.len() == b.len(),
        forall|i: int| 0 <= i < a.len() ==> (#[trigger] a[i]).1@ == b[i].1@,
    ensures
        gravity_hash(canon, pair_values(a)) == gravity_hash(canon, pair_values(b)),
{
    assert(pair_values(a) =~= pair_values(b));
}

/// A single value hashes as its canonical text does, so a record placed by
/// one gravity field lies with the records placed by an anchor of that value.
pub proof fn law_single_value_hash<H: Fn(&str) -> u64, R: Fn(&Value) -> String>(
    canon: Canon<H, R>,
    v: ValueV,
)
    ensures
        gravity_hash(canon, seq![v]) == canon.hash_of(canon.anchor_text(v)),
{
    let texts = anchor_texts(canon, seq![v]);
    lemma_fold_splits(texts);
    assert(folded(texts) =~= canon.anchor_text(v));
}

impl<H: Fn(&str) -> u64, R: Fn(&Value) -> String> Canon<H, R> {
    /// Texts hash, and values that are neither texts, integers nor booleans read, as the
    /// storage layer has it.
    pub proof fn law_conventions_are_handed_in(&self, t: &str, h: u64, v: &Value, s: String)
        requires
            self.sound(),
            self.hash.ensures((t,), h),
            self.render.ensures((v,), s),
        ensures
            self.hash_of(t@) == h,
            !(v@ is Text || v@ is Int || v@ is Bool) ==> self.anchor_text(v@) == s@,
    {
        assert(self.hashes_to(t@, h));
        assert(self.reads_as(v@, s@));
    }

    /// A text is its own canonical text, and different integers, like the two booleans,
    /// have different ones.
    pub proof fn law_canonical_texts_tell_apart(&self, a: ValueV, b: ValueV)
        ensures
            a matches ValueV::Text(s) ==> self.anchor_text(a) == s,
            a is Int && b is Int && self.anchor_text(a) == self.anchor_text(b) ==> a == b,
            a is Bool && b is Bool && self.anchor_text(a) == self.anchor_text(b) ==> a == b,
            a is Int && b is Bool ==> self.anchor_text(a) != self.anchor_text(b),
    {
        reveal_strlit("true");
        reveal_strlit("false");
        match (a, b) {
            (ValueV::Int(m), ValueV::Int(n)) => {
                if self.anchor_text(a) == self.anchor_text(b) {
                    text::law_decimals_tell_apart(m as int, n as int);
                }
            },
            (ValueV::Int(m), ValueV::Bool(_)) => {
                text::lemma_decimal_chars(m as int);
                let x = self.anchor_text(a);
                let y = self.anchor_text(b);
                assert(x[0] == '-' || '0' <= x[0] <= '9');
                assert(y[0] == 't' || y[0] == 'f');
            },
            (ValueV::Bool(_), ValueV::Bool(_)) => {
                let x = self.anchor_text(a);
                let y = self.anchor_text(b);
                assert(x == y ==> x[0] == y[0]);
            },
            _ => {},
        }
    }

    /// The hash of several values is that of their canonical texts one after the other
    /// with a zero character between each two.
    pub proof fn law_hash_of_values(&self, vals: Seq<ValueV>, t: &str, h: u64)
        requires
            self.sound(),
            self.hash.ensures((t,), h),
            t@ == text::joined(
                vals.map_values(|v: ValueV| self.anchor_text(v)),
                seq!['\0'],
            ),
        ensures
            gravity_hash(*self, vals) == h,
    {
        assert(self.hashes_to(t@, h));
        assert(anchor_texts(*self, vals) =~= vals.map_values(|v: ValueV| self.anchor_text(v)));
    }
}

} // verus!
