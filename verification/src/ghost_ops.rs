//! The entries of ghosts, and the functions of the storage and aggregate
//! layers that they are made with.

use crate::aggregate_state;
use crate::aggregate_state::{AggregateState, AggregateStateV, Metric, MetricV};
use crate::bytes;
use crate::record;
use crate::record::{Fields, Record, RecordV};
use crate::sorted_map::SortedMap;
use crate::text;
use crate::value;
use crate::value::{Value, ValueV};
use vstd::prelude::*;
use vstd::slice::*;
use vstd::string::*;
use vstd::utf8;

verus! {

/// What ghosts take from the storage and aggregate layers.
pub struct GhostOps<K, T, P, U, A, S> {
    /// The key of the group that a record's fields belong to.
    pub group_key: K,
    /// The key of an entry: ghost, sort value, direction, tiebreak.
    pub sort_key: T,
    /// The bytes of a value.
    pub pack: P,
    /// The value of bytes.
    pub unpack: U,
    /// A state with a record taken in.
    pub add: A,
    /// A state with a record taken out.
    pub subtract: S,
}

/// What an optional reference to a value stands for.
pub open spec fn opt_ref(v: Option<&Value>) -> Option<ValueV> {
    match v {
        Some(x) => Some(x@),
        None => None,
    }
}

/// What optional bytes are.
pub open spec fn opt_bytes(b: Option<Vec<u8>>) -> Option<Seq<u8>> {
    match b {
        Some(x) => Some(x@),
        None => None,
    }
}

impl<
    K: Fn(&Fields, &[String]) -> String,
    T: Fn(u16, Option<&Value>, bool, &[u8]) -> Vec<u8>,
    P: Fn(&Value) -> Option<Vec<u8>>,
    U: Fn(&[u8]) -> Option<Value>,
    A: Fn(&AggregateState, &Record, &Vec<Metric>) -> AggregateState,
    S: Fn(&AggregateState, &Record, &Vec<Metric>) -> AggregateState,
> GhostOps<K, T, P, U, A, S> {
    /// The functions accept everything and depend on nothing but what their
    /// arguments stand for.
    pub open spec fn sound(&self) -> bool {
        &&& self.keys_sound()
        &&& self.codec_sound()
        &&& self.states_sound()
    }

    /// The key functions are sound.
    pub open spec fn keys_sound(&self) -> bool {
        &&& forall|f: &Fields, g: &[String]| #[trigger] self.group_key.requires((f, g))
        &&& forall|f: &Fields, g: &[String], a: String, h: &Fields, k: &[String], b: String|
            #![trigger self.group_key.ensures((f, g), a), self.group_key.ensures((h, k), b)]
            self.group_key.ensures((f, g), a) && self.group_key.ensures((h, k), b)
                && record::fields_view(f@) == record::fields_view(h@) && text::names(g@)
                == text::names(k@) ==> a@ == b@
        &&& forall|i: u16, v: Option<&Value>, d: bool, t: &[u8]| #[trigger]
            self.sort_key.requires((i, v, d, t))
        &&& forall|
            i: u16,
            v: Option<&Value>,
            d: bool,
            t: &[u8],
            a: Vec<u8>,
            w: Option<&Value>,
            u: &[u8],
            b: Vec<u8>,
        |
            #![trigger self.sort_key.ensures((i, v, d, t), a), self.sort_key.ensures((i, w, d, u), b)]
            self.sort_key.ensures((i, v, d, t), a) && self.sort_key.ensures((i, w, d, u), b)
                && opt_ref(v) == opt_ref(w) && t@ == u@ ==> a@ == b@
    }

    /// The value functions are sound.
    pub open spec fn codec_sound(&self) -> bool {
        &&& forall|v: &Value| #[trigger] self.pack.requires((v,))
        &&& forall|v: &Value, a: Option<Vec<u8>>, w: &Value, b: Option<Vec<u8>>|
            #![trigger self.pack.ensures((v,), a), self.pack.ensures((w,), b)]
            self.pack.ensures((v,), a) && self.pack.ensures((w,), b) && v@ == w@ ==> opt_bytes(a)
                == opt_bytes(b)
        &&& forall|x: &[u8]| #[trigger] self.unpack.requires((x,))
        &&& forall|x: &[u8], a: Option<Value>, y: &[u8], b: Option<Value>|
            #![trigger self.unpack.ensures((x,), a), self.unpack.ensures((y,), b)]
            self.unpack.ensures((x,), a) && self.unpack.ensures((y,), b) && x@ == y@
                ==> value::opt_view(a) == value::opt_view(b)
    }

    /// The state functions are sound.
    pub open spec fn states_sound(&self) -> bool {
        &&& forall|s: &AggregateState, r: &Record, m: &Vec<Metric>| #[trigger]
            self.add.requires((s, r, m))
        &&& forall|
            s: &AggregateState,
            r: &Record,
            m: &Vec<Metric>,
            a: AggregateState,
            t: &AggregateState,
            q: &Record,
            n: &Vec<Metric>,
            b: AggregateState,
        |
            #![trigger self.add.ensures((s, r, m), a), self.add.ensures((t, q, n), b)]
            self.add.ensures((s, r, m), a) && self.add.ensures((t, q, n), b) && s@ == t@ && r@ == q@
                && aggregate_state::metrics_view(m@) == aggregate_state::metrics_view(n@) ==> a@
                == b@
        &&& forall|s: &AggregateState, r: &Record, m: &Vec<Metric>| #[trigger]
            self.subtract.requires((s, r, m))
        &&& forall|
            s: &AggregateState,
            r: &Record,
            m: &Vec<Metric>,
            a: AggregateState,
            t: &AggregateState,
            q: &Record,
            n: &Vec<Metric>,
            b: AggregateState,
        |
            #![trigger self.subtract.ensures((s, r, m), a), self.subtract.ensures((t, q, n), b)]
            self.subtract.ensures((s, r, m), a) && self.subtract.ensures((t, q, n), b) && s@ == t@
                && r@ == q@ && aggregate_state::metrics_view(m@) == aggregate_state::metrics_view(
                n@,
            ) ==> a@ == b@
    }

    /// `k` is a key of the group.
    pub open spec fn is_group_key(
        &self,
        fields: Map<Seq<char>, ValueV>,
        names: Seq<Seq<char>>,
        k: Seq<char>,
    ) -> bool {
        exists|f: &Fields, g: &[String], a: String|
            record::fields_view(f@) == fields && text::names(g@) == names && a@ == k
                && #[trigger] self.group_key.ensures((f, g), a)
    }

    /// The key of the group that fields belong to.
    pub open spec fn group_key_of(
        &self,
        fields: Map<Seq<char>, ValueV>,
        names: Seq<Seq<char>>,
    ) -> Seq<char> {
        choose|k: Seq<char>| self.is_group_key(fields, names, k)
    }

    /// `k` is a key of the entry.
    pub open spec fn is_sort_key(
        &self,
        id: u16,
        v: Option<ValueV>,
        inverted: bool,
        tiebreak: Seq<u8>,
        k: Seq<u8>,
    ) -> bool {
        exists|w: Option<&Value>, t: &[u8], a: Vec<u8>|
            opt_ref(w) == v && t@ == tiebreak && a@ == k && #[trigger] self.sort_key.ensures(
                (id, w, inverted, t),
                a,
            )
    }

    /// The key of an entry.
    pub open spec fn sort_key_of(
        &self,
        id: u16,
        v: Option<ValueV>,
        inverted: bool,
        tiebreak: Seq<u8>,
    ) -> Seq<u8> {
        choose|k: Seq<u8>| self.is_sort_key(id, v, inverted, tiebreak, k)
    }

    /// `b` are bytes of the value.
    pub open spec fn packs_to(&self, v: ValueV, b: Option<Seq<u8>>) -> bool {
        exists|w: &Value, a: Option<Vec<u8>>|
            w@ == v && opt_bytes(a) == b && #[trigger] self.pack.ensures((w,), a)
    }

    /// The bytes of a value.
    pub open spec fn packed(&self, v: ValueV) -> Option<Seq<u8>> {
        choose|b: Option<Seq<u8>>| self.packs_to(v, b)
    }

    /// `v` is a value of the bytes.
    pub open spec fn unpacks_to(&self, b: Seq<u8>, v: Option<ValueV>) -> bool {
        exists|x: &[u8], a: Option<Value>|
            x@ == b && value::opt_view(a) == v && #[trigger] self.unpack.ensures((x,), a)
    }

    /// The value of bytes.
    pub open spec fn unpacked(&self, b: Seq<u8>) -> Option<ValueV> {
        choose|v: Option<ValueV>| self.unpacks_to(b, v)
    }

    /// `t` is a state with the record taken in.
    pub open spec fn adds_to(
        &self,
        s: AggregateStateV,
        r: RecordV,
        m: Seq<MetricV>,
        t: AggregateStateV,
    ) -> bool {
        exists|x: &AggregateState, q: &Record, n: &Vec<Metric>, a: AggregateState|
            x@ == s && q@ == r && aggregate_state::metrics_view(n@) == m && a@ == t
                && #[trigger] self.add.ensures((x, q, n), a)
    }

    /// The state with the record taken in.
    pub open spec fn added(
        &self,
        s: AggregateStateV,
        r: RecordV,
        m: Seq<MetricV>,
    ) -> AggregateStateV {
        choose|t: AggregateStateV| self.adds_to(s, r, m, t)
    }

    /// `t` is a state with the record taken out.
    pub open spec fn subtracts_to(
        &self,
        s: AggregateStateV,
        r: RecordV,
        m: Seq<MetricV>,
        t: AggregateStateV,
    ) -> bool {
        exists|x: &AggregateState, q: &Record, n: &Vec<Metric>, a: AggregateState|
            x@ == s && q@ == r && aggregate_state::metrics_view(n@) == m && a@ == t
                && #[trigger] self.subtract.ensures((x, q, n), a)
    }

    /// The state with the record taken out.
    pub open spec fn subtracted(
        &self,
        s: AggregateStateV,
        r: RecordV,
        m: Seq<MetricV>,
    ) -> AggregateStateV {
        choose|t: AggregateStateV| self.subtracts_to(s, r, m, t)
    }

    /// The key of the group that fields belong to.
    pub fn extract_group_key(&self, fields: &Fields, names: &[String]) -> (r: String)
        requires
            self.sound(),
        ensures
            r@ == self.group_key_of(record::fields_view(fields@), text::names(names@)),
    {
        let r = (self.group_key)(fields, names);
        assert(self.is_group_key(record::fields_view(fields@), text::names(names@), r@));
        r
    }

    /// The key of an entry.
    pub fn encode_sort_key(
        &self,
        id: u16,
        v: Option<&Value>,
        inverted: bool,
        tiebreak: &[u8],
    ) -> (r: Vec<u8>)
        requires
            self.sound(),
        ensures
            r@ == self.sort_key_of(id, opt_ref(v), inverted, tiebreak@),
    {
        let r = (self.sort_key)(id, v, inverted, tiebreak);
        assert(self.is_sort_key(id, opt_ref(v), inverted, tiebreak@, r@));
        r
    }

    /// The bytes of a value.
    fn pack_value(&self, v: &Value) -> (r: Option<Vec<u8>>)
        requires
            self.sound(),
        ensures
            opt_bytes(r) == self.packed(v@),
    {
        let r = (self.pack)(v);
        assert(self.packs_to(v@, opt_bytes(r)));
        r
    }

    /// The value of bytes.
    fn unpack_value(&self, b: &[u8]) -> (r: Option<Value>)
        requires
            self.sound(),
        ensures
            value::opt_view(r) == self.unpacked(b@),
    {
        let r = (self.unpack)(b);
        assert(self.unpacks_to(b@, value::opt_view(r)));
        r
    }

    /// The state with the record taken in.
    pub fn add_record(&self, s: &AggregateState, r: &Record, m: &Vec<Metric>) -> (t: AggregateState)
        requires
            self.sound(),
        ensures
            t@ == self.added(s@, r@, aggregate_state::metrics_view(m@)),
    {
        let t = (self.add)(s, r, m);
        assert(self.adds_to(s@, r@, aggregate_state::metrics_view(m@), t@));
        t
    }

    /// The state with the record taken out.
    pub fn subtract_record(&self, s: &AggregateState, r: &Record, m: &Vec<Metric>) -> (t:
        AggregateState)
        requires
            self.sound(),
        ensures
            t@ == self.subtracted(s@, r@, aggregate_state::metrics_view(m@)),
    {
        let t = (self.subtract)(s, r, m);
        assert(self.subtracts_to(s@, r@, aggregate_state::metrics_view(m@), t@));
        t
    }

    /// What keeps entries with the same sort value apart: the spatial key of
    /// the record, or the key of its group where the ghost has groups.
    pub open spec fn tiebreak(
        &self,
        group_fields: Seq<Seq<char>>,
        fields: Map<Seq<char>, ValueV>,
        spatial_key: Seq<u8>,
    ) -> Seq<u8> {
        if group_fields.len() == 0 {
            spatial_key
        } else {
            utf8::encode_utf8(self.group_key_of(fields, group_fields))
        }
    }

    /// What keeps entries with the same sort value apart.
    fn ghost_entry_tiebreak(
        &self,
        group_fields: &[String],
        fields: &Fields,
        spatial_key: &[u8],
    ) -> (r: Vec<u8>)
        requires
            self.sound(),
        ensures
            r@ == self.tiebreak(text::names(group_fields@), record::fields_view(fields@), spatial_key@),
    {
        if group_fields.len() == 0 {
            slice_to_vec(spatial_key)
        } else {
            let k = self.extract_group_key(fields, group_fields);
            slice_to_vec(k.as_str().as_bytes())
        }
    }

    /// The key of a record's entry in a ghost.
    pub open spec fn entry_key(
        &self,
        id: u16,
        order_by: Seq<char>,
        inverted: bool,
        group_fields: Seq<Seq<char>>,
        fields: Map<Seq<char>, ValueV>,
        spatial_key: Seq<u8>,
    ) -> Seq<u8> {
        self.sort_key_of(
            id,
            sort_value(fields, order_by),
            inverted,
            self.tiebreak(group_fields, fields, spatial_key),
        )
    }

    /// The key of a record's entry in a ghost.
    pub fn make_entry_key(
        &self,
        id: u16,
        order_by: &str,
        inverted: bool,
        group_fields: &[String],
        record: &Record,
        spatial_key: &[u8],
    ) -> (r: Vec<u8>)
        requires
            self.sound(),
        ensures
            r@ == self.entry_key(
                id,
                order_by@,
                inverted,
                text::names(group_fields@),
                record@.fields,
                spatial_key@,
            ),
    {
        let tiebreak = self.ghost_entry_tiebreak(group_fields, &record.fields, spatial_key);
        let v = get_sort_value(record, order_by);
        self.encode_sort_key(id, v, inverted, tiebreak.as_slice())
    }

    /// The bytes of an embedded field: its name and its value, each with its
    /// length in front. A value without bytes has length zero.
    pub open spec fn packed_field(&self, name: Seq<char>, v: ValueV) -> Seq<u8> {
        let n = utf8::encode_utf8(name);
        seq![(n.len() % 256) as u8] + n + match self.packed(v) {
            Some(b) => bytes::be16((b.len() % 0x1_0000) as u16) + b,
            None => bytes::be16(0),
        }
    }

    /// The bytes of embedded fields.
    pub open spec fn packed_fields(&self, fs: Seq<(Seq<char>, ValueV)>) -> Seq<u8>
        decreases fs.len(),
    {
        if fs.len() == 0 {
            Seq::empty()
        } else {
            self.packed_fields(fs.drop_last()) + self.packed_field(fs.last().0, fs.last().1)
        }
    }

    /// The value of an entry: the spatial key and, with a projection, how many
    /// fields are embedded and their bytes.
    pub open spec fn entry_value(
        &self,
        spatial_key: Seq<u8>,
        fields: Map<Seq<char>, ValueV>,
        projection: Seq<Seq<char>>,
    ) -> Seq<u8> {
        if projection.len() == 0 {
            spatial_key
        } else {
            let fs = present(fields, projection);
            spatial_key + (seq![(fs.len() % 256) as u8] + self.packed_fields(fs))
        }
    }

    /// The value of a record's entry in a ghost.
    pub fn encode_ghost_value(
        &self,
        spatial_key: &[u8],
        record: &Record,
        projection: &[String],
    ) -> (r: Vec<u8>)
        requires
            self.sound(),
        ensures
            r@ == self.entry_value(spatial_key@, record@.fields, text::names(projection@)),
    {
        let ghost names = text::names(projection@);
        let ghost fields = record@.fields;
        let mut buf = slice_to_vec(spatial_key);
        if projection.len() == 0 {
            return buf;
        }
        let mut body: Vec<u8> = Vec::new();
        let mut count: usize = 0;
        let mut i: usize = 0;
        assert(names.take(0) =~= Seq::<Seq<char>>::empty());
        while i < projection.len()
            invariant
                i <= projection@.len(),
                count <= i,
                self.sound(),
                names == text::names(projection@),
                fields == record@.fields,
                count == present(fields, names.take(i as int)).len(),
                body@ == self.packed_fields(present(fields, names.take(i as int))),
            decreases projection@.len() - i,
        {
            let name = &projection[i];
            let ghost before = present(fields, names.take(i as int));
            assert(names.take(i + 1).drop_last() =~= names.take(i as int));
            assert(names.take(i + 1).last() == name@);
            match record.fields.get(name.as_str()) {
                Some(v) => {
                    let ghost after = before.push((name@, fields[name@]));
                    assert(v@ == fields[name@]);
                    assert(present(fields, names.take(i + 1)) == after);
                    assert(after.drop_last() =~= before);
                    let ghost start = body@;
                    let nb = name.as_str().as_bytes();
                    body.push((nb.len() % 256) as u8);
                    bytes::push_all(&mut body, nb);
                    match self.pack_value(v) {
                        Some(vb) => {
                            bytes::push_be16(&mut body, (vb.len() % 0x1_0000) as u16);
                            bytes::push_all(&mut body, vb.as_slice());
                        },
                        None => {
                            bytes::push_be16(&mut body, 0);
                        },
                    }
                    assert(body@ =~= start + self.packed_field(name@, v@));
                    count = count + 1;
                },
                None => {
                    assert(present(fields, names.take(i + 1)) == before);
                },
            }
            i = i + 1;
        }
        assert(names.take(i as int) =~= names);
        buf.push((count % 256) as u8);
        bytes::push_all(&mut buf, body.as_slice());
        assert(buf@ =~= self.entry_value(spatial_key@, fields, names));
        buf
    }

    /// The fields read from a payload at `pos`, of which `n` are announced:
    /// reading stops where the payload ends early, skips a value that cannot
    /// be read, and fails at a name that is no text.
    pub open spec fn read_fields(
        &self,
        p: Seq<u8>,
        pos: int,
        n: nat,
        acc: Map<Seq<char>, ValueV>,
    ) -> Option<Map<Seq<char>, ValueV>>
        decreases n,
    {
        if n == 0 || pos >= p.len() {
            Some(acc)
        } else {
            let a = pos + 1;
            let b = a + p[pos];
            if b > p.len() {
                Some(acc)
            } else if !utf8::valid_utf8(p.subrange(a, b)) {
                None
            } else if b + 2 > p.len() {
                Some(acc)
            } else {
                let c = b + 2;
                let d = c + bytes::from_be16(p[b], p[b + 1]);
                let name = utf8::decode_utf8(p.subrange(a, b));
                let next = if d > c && d <= p.len() {
                    match self.unpacked(p.subrange(c, d)) {
                        Some(v) => acc.insert(name, v),
                        None => acc,
                    }
                } else {
                    acc
                };
                self.read_fields(p, d, (n - 1) as nat, next)
            }
        }
    }

    /// The fields embedded in an entry's value, if there are any.
    pub open spec fn embedded(&self, entry: Seq<u8>, key_len: int) -> Option<
        Map<Seq<char>, ValueV>,
    > {
        if entry.len() <= key_len {
            None
        } else {
            let p = entry.skip(key_len);
            match self.read_fields(p, 1, p[0] as nat, Map::empty()) {
                Some(m) => if m.dom().is_empty() {
                    None
                } else {
                    Some(m)
                },
                None => None,
            }
        }
    }

    /// Reads the embedded fields of an entry as a record without identity and
    /// times, or `None` where there are none.
    #[verifier::loop_isolation(false)]
    pub fn decode_ghost_projection(
        &self,
        entry: &[u8],
        key_len: usize,
        source_lobe: &str,
    ) -> (r: Option<Record>)
        requires
            self.sound(),
        ensures
            match r {
                Some(rec) => self.embedded(entry@, key_len as int) == Some(rec@.fields) && rec@
                    == (RecordV {
                    lid: 0,
                    lobe_name: source_lobe@,
                    fields: rec@.fields,
                    created_at: 0,
                    updated_at: 0,
                }),
                None => self.embedded(entry@, key_len as int) is None,
            },
    {
        if entry.len() <= key_len {
            return None;
        }
        let p = slice_subrange(entry, key_len, entry.len());
        let ghost pv = entry@.skip(key_len as int);
        assert(p@ =~= pv);
        let count: usize = p[0] as usize;
        let mut fields: Fields = SortedMap::new();
        let mut pos: usize = 1;
        let mut left: usize = count;
        let ghost goal = self.read_fields(pv, 1, count as nat, Map::empty());
        assert(record::fields_view(fields@) =~= Map::<Seq<char>, ValueV>::empty());
        while left > 0
            invariant
                self.read_fields(pv, pos as int, left as nat, record::fields_view(fields@)) == goal,
            decreases left,
        {
            if pos >= p.len() {
                break;
            }
            let name_len: usize = p[pos] as usize;
            pos = pos + 1;
            if name_len > p.len() - pos {
                break;
            }
            let name = match text::utf8_text(slice_subrange(p, pos, pos + name_len)) {
                Some(s) => s,
                None => {
                    return None;
                },
            };
            pos = pos + name_len;
            if p.len() - pos < 2 {
                break;
            }
            let val_len: usize = bytes::read_be16(p, pos) as usize;
            pos = pos + 2;
            let ghost acc = record::fields_view(fields@);
            if val_len > 0 && val_len <= p.len() - pos {
                if let Some(v) = self.unpack_value(slice_subrange(p, pos, pos + val_len)) {
                    fields.insert(name, v);
                    assert(record::fields_view(fields@) =~= acc.insert(name@, v@));
                }
            } else if val_len > p.len() - pos {
                proof {
                    lemma_past_end(*self, pv, pos + val_len as int, (left - 1) as nat, acc);
                }
                break;
            }
            pos = pos + val_len;
            left = left - 1;
        }
        proof {
            assert(record::fields_view(fields@).dom() =~= fields@.dom());
        }
        if fields.is_empty() {
            return None;
        }
        proof {
            assert(!record::fields_view(fields@).dom().is_empty()) by {
                assert(fields@.dom() != Set::<Seq<char>>::empty()) by {
                    if fields@.dom() == Set::<Seq<char>>::empty() {
                        assert(fields@ =~= Map::<Seq<char>, Value>::empty());
                    }
                }
            }
        }
        Some(
            Record {
                lid: 0,
                lobe_name: source_lobe.to_owned(),
                fields,
                created_at: 0,
                updated_at: 0,
            },
        )
    }
    /// The bytes of an embedded field can be read back: name and value are
    /// short enough, and the value's bytes give the value.
    pub open spec fn readable(&self, name: Seq<char>, v: ValueV) -> bool {
        &&& utf8::encode_utf8(name).len() <= 255
        &&& self.packed(v) matches Some(b) && 1 <= b.len() <= 65_535 && self.unpacked(b) == Some(v)
    }

    proof fn lemma_packed_prefix(&self, fs: Seq<(Seq<char>, ValueV)>, i: int)
        requires
            0 <= i <= fs.len(),
        ensures
            self.packed_fields(fs.take(i)).len() <= self.packed_fields(fs).len(),
            self.packed_fields(fs).take(self.packed_fields(fs.take(i)).len() as int)
                == self.packed_fields(fs.take(i)),
        decreases fs.len() - i,
    {
        let part = self.packed_fields(fs.take(i));
        if i == fs.len() {
            assert(fs.take(i) =~= fs);
            assert(part.take(part.len() as int) =~= part);
        } else {
            self.lemma_packed_prefix(fs, i + 1);
            assert(fs.take(i + 1).drop_last() =~= fs.take(i));
            let more = self.packed_fields(fs.take(i + 1));
            assert(more == part + self.packed_field(fs[i].0, fs[i].1));
            let whole = self.packed_fields(fs);
            assert(whole.take(part.len() as int) =~= part) by {
                assert forall|j: int| 0 <= j < part.len() implies whole[j] == part[j] by {
                    assert(whole.take(more.len() as int)[j] == more[j]);
                }
            }
        }
    }

    proof fn lemma_read_one(
        &self,
        p: Seq<u8>,
        pos: int,
        n: nat,
        acc: Map<Seq<char>, ValueV>,
        name: Seq<char>,
        v: ValueV,
    )
        requires
            n > 0,
            0 <= pos,
            self.readable(name, v),
            pos + self.packed_field(name, v).len() <= p.len(),
            p.subrange(pos, pos + self.packed_field(name, v).len()) == self.packed_field(name, v),
        ensures
            self.read_fields(p, pos, n, acc) == self.read_fields(
                p,
                pos + self.packed_field(name, v).len(),
                (n - 1) as nat,
                acc.insert(name, v),
            ),
    {
        let nb = utf8::encode_utf8(name);
        let vb = self.packed(v)->Some_0;
        let one = self.packed_field(name, v);
        let nl = nb.len() as int;
        let vl = vb.len() as int;
        let head = bytes::be16(vb.len() as u16);
        assert(one =~= seq![nl as u8] + nb + head + vb);
        let sub = p.subrange(pos, pos + one.len());
        assert(sub[0] == p[pos]);
        assert(p[pos] == nl);
        let a = pos + 1;
        let b = a + nl;
        let c = b + 2;
        let d = c + vl;
        assert(p.subrange(a, b) =~= one.subrange(1, 1 + nl));
        assert(one.subrange(1, 1 + nl) =~= nb);
        assert(sub[1 + nl] == p[b] && sub[2 + nl] == p[b + 1]);
        bytes::lemma_be16_round_trip(vb.len() as u16);
        assert(p[b] == head[0] && p[b + 1] == head[1]);
        assert(p.subrange(c, d) =~= one.subrange(3 + nl, 3 + nl + vl));
        assert(one.subrange(3 + nl, 3 + nl + vl) =~= vb);
        utf8::encode_utf8_valid_utf8(name);
        utf8::encode_utf8_decode_utf8(name);
    }

    proof fn lemma_read_from(&self, fs: Seq<(Seq<char>, ValueV)>, p: Seq<u8>, i: int)
        requires
            0 <= i <= fs.len(),
            p == seq![(fs.len() % 256) as u8] + self.packed_fields(fs),
            forall|j: int| 0 <= j < fs.len() ==> self.readable((#[trigger] fs[j]).0, fs[j].1),
        ensures
            self.read_fields(
                p,
                1 + self.packed_fields(fs.take(i)).len() as int,
                (fs.len() - i) as nat,
                inserted(fs.take(i)),
            ) == Some(inserted(fs)),
        decreases fs.len() - i,
    {
        if i == fs.len() {
            assert(fs.take(i) =~= fs);
        } else {
            self.lemma_read_from(fs, p, i + 1);
            self.lemma_packed_prefix(fs, i + 1);
            assert(fs.take(i + 1).drop_last() =~= fs.take(i));
            let part = self.packed_fields(fs.take(i));
            let one = self.packed_field(fs[i].0, fs[i].1);
            let more = self.packed_fields(fs.take(i + 1));
            assert(more == part + one);
            let whole = self.packed_fields(fs);
            let pos = 1 + part.len() as int;
            assert(p.subrange(pos, pos + one.len()) =~= one) by {
                assert forall|j: int| 0 <= j < one.len() implies p[pos + j] == one[j] by {
                    assert(whole.take(more.len() as int)[part.len() + j] == more[part.len() + j]);
                }
            }
            assert(inserted(fs.take(i + 1)) == inserted(fs.take(i)).insert(fs[i].0, fs[i].1));
            self.lemma_read_one(
                p,
                pos,
                (fs.len() - i) as nat,
                inserted(fs.take(i)),
                fs[i].0,
                fs[i].1,
            );
        }
    }

    /// The fields embedded in an entry read back: where each name has at most
    /// 255 bytes, each value has between 1 and 65535 bytes from which it can be
    /// read, and between 1 and 255 of the projected fields are there, reading
    /// gives exactly the projected fields of the record.
    pub proof fn law_projection_round_trip(
        &self,
        key: Seq<u8>,
        fields: Map<Seq<char>, ValueV>,
        projection: Seq<Seq<char>>,
    )
        requires
            1 <= present(fields, projection).len() <= 255,
            forall|j: int|
                0 <= j < present(fields, projection).len() ==> self.readable(
                    (#[trigger] present(fields, projection)[j]).0,
                    present(fields, projection)[j].1,
                ),
        ensures
            self.embedded(self.entry_value(key, fields, projection), key.len() as int) == Some(
                restricted(fields, projection),
            ),
    {
        let fs = present(fields, projection);
        let entry = self.entry_value(key, fields, projection);
        let p = seq![(fs.len() % 256) as u8] + self.packed_fields(fs);
        assert(projection.len() > 0);
        assert(entry.skip(key.len() as int) =~= p);
        assert(p[0] == fs.len());
        assert(fs.take(0) =~= Seq::<(Seq<char>, ValueV)>::empty());
        self.lemma_read_from(fs, p, 0);
        lemma_inserted_present(fields, projection);
        assert(inserted(fs.take(0)) =~= Map::<Seq<char>, ValueV>::empty());
        assert(!inserted(fs).dom().is_empty()) by {
            assert(inserted(fs).dom().contains(fs.last().0));
        }
    }
}

/// Named values as a map; the last of a name counts.
pub open spec fn inserted(fs: Seq<(Seq<char>, ValueV)>) -> Map<Seq<char>, ValueV>
    decreases fs.len(),
{
    if fs.len() == 0 {
        Map::empty()
    } else {
        inserted(fs.drop_last()).insert(fs.last().0, fs.last().1)
    }
}

/// The fields that a projection names.
pub open spec fn restricted(fields: Map<Seq<char>, ValueV>, projection: Seq<Seq<char>>) -> Map<
    Seq<char>,
    ValueV,
> {
    Map::new(
        |k: Seq<char>| projection.contains(k) && fields.contains_key(k),
        |k: Seq<char>| fields[k],
    )
}

proof fn lemma_inserted_present(fields: Map<Seq<char>, ValueV>, projection: Seq<Seq<char>>)
    ensures
        inserted(present(fields, projection)) == restricted(fields, projection),
    decreases projection.len(),
{
    let got = inserted(present(fields, projection));
    let want = restricted(fields, projection);
    if projection.len() == 0 {
        assert(got =~= want);
    } else {
        let init = projection.drop_last();
        let last = projection.last();
        lemma_inserted_present(fields, init);
        let before = present(fields, init);
        if fields.contains_key(last) {
            assert(present(fields, projection).drop_last() =~= before);
        }
        assert forall|k: Seq<char>|
            #![trigger got.dom().contains(k)]
            #![trigger want.dom().contains(k)]
            got.dom().contains(k) == want.dom().contains(k) by {
            if projection.contains(k) {
                let i = choose|i: int| 0 <= i < projection.len() && projection[i] == k;
                if i < init.len() {
                    assert(init[i] == k);
                    assert(init.contains(k));
                }
            }
            if init.contains(k) {
                let i = choose|i: int| 0 <= i < init.len() && init[i] == k;
                assert(projection[i] == k);
            }
            if k == last {
                assert(projection[projection.len() - 1] == k);
            }
            assert(restricted(fields, init).dom().contains(k) == (init.contains(k)
                && fields.contains_key(k)));
        }
        assert(got.dom() =~= want.dom());
        assert forall|k: Seq<char>| got.dom().contains(k) implies got[k] == want[k] by {
            assert(want.dom().contains(k));
            if k != last || !fields.contains_key(last) {
                assert(inserted(before).dom().contains(k));
            }
        }
        assert(got =~= want);
    }
}

/// Past the end of the payload nothing more is read.
proof fn lemma_past_end<
    K: Fn(&Fields, &[String]) -> String,
    T: Fn(u16, Option<&Value>, bool, &[u8]) -> Vec<u8>,
    P: Fn(&Value) -> Option<Vec<u8>>,
    U: Fn(&[u8]) -> Option<Value>,
    A: Fn(&AggregateState, &Record, &Vec<Metric>) -> AggregateState,
    S: Fn(&AggregateState, &Record, &Vec<Metric>) -> AggregateState,
>(
    ops: GhostOps<K, T, P, U, A, S>,
    p: Seq<u8>,
    pos: int,
    n: nat,
    acc: Map<Seq<char>, ValueV>,
)
    requires
        pos >= p.len(),
    ensures
        ops.read_fields(p, pos, n, acc) == Some(acc),
{
}

/// The value that orders a record in a ghost.
pub open spec fn sort_value(fields: Map<Seq<char>, ValueV>, order_by: Seq<char>) -> Option<
    ValueV,
> {
    if order_by.len() > 0 && fields.contains_key(order_by) {
        Some(fields[order_by])
    } else {
        None
    }
}

/// The value that orders a record in a ghost; a ghost without an order field
/// has none.
pub fn get_sort_value<'a>(record: &'a Record, order_by: &str) -> (r: Option<&'a Value>)
    ensures
        opt_ref(r) == sort_value(record@.fields, order_by@),
{
    if order_by.unicode_len() == 0 {
        return None;
    }
    record.fields.get(order_by)
}

/// The fields of a projection that are there, in its order.
pub open spec fn present(fields: Map<Seq<char>, ValueV>, projection: Seq<Seq<char>>) -> Seq<
    (Seq<char>, ValueV),
>
    decreases projection.len(),
{
    if projection.len() == 0 {
        Seq::empty()
    } else {
        let before = present(fields, projection.drop_last());
        if fields.contains_key(projection.last()) {
            before.push((projection.last(), fields[projection.last()]))
        } else {
            before
        }
    }
}

impl<
    K: Fn(&Fields, &[String]) -> String,
    T: Fn(u16, Option<&Value>, bool, &[u8]) -> Vec<u8>,
    P: Fn(&Value) -> Option<Vec<u8>>,
    U: Fn(&[u8]) -> Option<Value>,
    A: Fn(&AggregateState, &Record, &Vec<Metric>) -> AggregateState,
    S: Fn(&AggregateState, &Record, &Vec<Metric>) -> AggregateState,
> GhostOps<K, T, P, U, A, S> {
    /// Keys, values and states are what the storage layer makes of them.
    pub proof fn law_functions_are_handed_in(
        &self,
        f: &Fields,
        names: &[String],
        group: String,
        v: &Value,
        packed: Option<Vec<u8>>,
        b: &[u8],
        unpacked: Option<Value>,
        s: &AggregateState,
        r: &Record,
        m: &Vec<Metric>,
        more: AggregateState,
        less: AggregateState,
    )
        requires
            self.sound(),
            self.group_key.ensures((f, names), group),
            self.pack.ensures((v,), packed),
            self.unpack.ensures((b,), unpacked),
            self.add.ensures((s, r, m), more),
            self.subtract.ensures((s, r, m), less),
        ensures
            self.group_key_of(record::fields_view(f@), text::names(names@)) == group@,
            self.packed(v@) == opt_bytes(packed),
            self.unpacked(b@) == value::opt_view(unpacked),
            self.added(s@, r@, aggregate_state::metrics_view(m@)) == more@,
            self.subtracted(s@, r@, aggregate_state::metrics_view(m@)) == less@,
    {
        assert(self.is_group_key(record::fields_view(f@), text::names(names@), group@));
        assert(self.packs_to(v@, opt_bytes(packed)));
        assert(self.unpacks_to(b@, value::opt_view(unpacked)));
        assert(self.adds_to(s@, r@, aggregate_state::metrics_view(m@), more@));
        assert(self.subtracts_to(s@, r@, aggregate_state::metrics_view(m@), less@));
    }

    /// The entry of a record lies where the storage layer puts the value of the field
    /// that the ghost is ordered by, in its direction, and, to tell it from others with
    /// that value, the record's own key, or the key of its group where there are groups.
    pub proof fn law_entry_lies_by_sort_value(
        &self,
        id: u16,
        order_by: Seq<char>,
        inverted: bool,
        group_fields: Seq<Seq<char>>,
        fields: Map<Seq<char>, ValueV>,
        spatial_key: Seq<u8>,
        w: Option<&Value>,
        t: &[u8],
        key: Vec<u8>,
    )
        requires
            self.sound(),
            self.sort_key.ensures((id, w, inverted, t), key),
            order_by.len() > 0 && fields.contains_key(order_by) ==> (w matches Some(x) && x@
                == fields[order_by]),
            order_by.len() == 0 || !fields.contains_key(order_by) ==> w is None,
            group_fields.len() == 0 ==> t@ == spatial_key,
            group_fields.len() > 0 ==> t@ == utf8::encode_utf8(
                self.group_key_of(fields, group_fields),
            ),
        ensures
            self.entry_key(id, order_by, inverted, group_fields, fields, spatial_key) == key@,
    {
        let v = sort_value(fields, order_by);
        assert(self.is_sort_key(id, v, inverted, t@, key@));
        assert(self.tiebreak(group_fields, fields, spatial_key) == t@);
        let k = self.sort_key_of(id, v, inverted, t@);
        assert(self.is_sort_key(id, v, inverted, t@, k));
    }

    /// The value of an entry begins with the key of its record, and holds no more where
    /// nothing is projected.
    pub proof fn law_entry_refers_to_record(
        &self,
        spatial_key: Seq<u8>,
        fields: Map<Seq<char>, ValueV>,
        projection: Seq<Seq<char>>,
    )
        ensures
            spatial_key.is_prefix_of(self.entry_value(spatial_key, fields, projection)),
            projection.len() == 0 ==> self.entry_value(spatial_key, fields, projection)
                == spatial_key,
    {
        let e = self.entry_value(spatial_key, fields, projection);
        assert(e.take(spatial_key.len() as int) =~= spatial_key);
    }
}

/// What is embedded are the fields of the projection that the record has, with their
/// values, in the order of the projection.
pub proof fn law_projection_takes_present_fields(
    fields: Map<Seq<char>, ValueV>,
    projection: Seq<Seq<char>>,
)
    ensures
        present(fields, projection) == projection.filter(
            |n: Seq<char>| fields.contains_key(n),
        ).map_values(|n: Seq<char>| (n, fields[n])),
    decreases projection.len(),
{
    reveal(Seq::filter);
    let has = |n: Seq<char>| fields.contains_key(n);
    let pair = |n: Seq<char>| (n, fields[n]);
    if projection.len() > 0 {
        let d = projection.drop_last();
        law_projection_takes_present_fields(fields, d);
        if fields.contains_key(projection.last()) {
            assert(projection.filter(has).map_values(pair) =~= d.filter(has).map_values(pair).push(
                (projection.last(), fields[projection.last()]),
            ));
        }
    } else {
        assert(present(fields, projection) =~= projection.filter(has).map_values(pair));
    }
}

} // verus!
