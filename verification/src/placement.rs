//! Where a record is placed: by a link, by the lobe's gravity specification, by
//! its marked fields, by its anchor, or by its content.

use crate::canon;
use crate::canon::Canon;
use crate::error::XyzError;
use crate::filter;
use crate::float;
use crate::ast;
use crate::ast::{Literal, LiteralV};
use crate::gravity_spec;
use crate::gravity_spec::{GravitySpec, GravitySpecV};
use crate::record;
use crate::record::Fields;
use crate::sorted_map::SortedMap;
use crate::text;
use crate::value::{Value, ValueV};
use vstd::prelude::*;

verus! {

/// A field of a record to be written; a marked one places the record.
pub struct PutField {
    pub name: String,
    pub value: Literal,
    pub gravity: bool,
}

/// What a [`PutField`] says.
pub struct PutFieldV {
    pub name: Seq<char>,
    pub value: LiteralV,
    pub gravity: bool,
}

impl View for PutField {
    type V = PutFieldV;

    open spec fn view(&self) -> PutFieldV {
        PutFieldV { name: self.name@, value: self.value@, gravity: self.gravity }
    }
}

/// What fields to be written say.
pub open spec fn puts_view(s: Seq<PutField>) -> Seq<PutFieldV> {
    s.map_values(|p: PutField| p@)
}

/// All parameters of the fields are bound.
pub open spec fn puts_bound(s: Seq<PutFieldV>) -> bool {
    forall|i: int| 0 <= i < s.len() ==> ast::bound((#[trigger] s[i]).value)
}

/// The values by field; the last one of a field counts.
pub open spec fn written_fields(s: Seq<PutFieldV>) -> Map<Seq<char>, ValueV>
    decreases s.len(),
{
    if s.len() == 0 {
        Map::empty()
    } else {
        written_fields(s.drop_last()).insert(s.last().name, filter::literal_value(s.last().value))
    }
}

/// The marked fields, in order.
pub open spec fn marked(s: Seq<PutFieldV>) -> Seq<(Seq<char>, ValueV)>
    decreases s.len(),
{
    if s.len() == 0 {
        Seq::empty()
    } else {
        let before = marked(s.drop_last());
        if s.last().gravity {
            before.push((s.last().name, filter::literal_value(s.last().value)))
        } else {
            before
        }
    }
}

/// The fields with a type: their own, or else the lobe's name.
pub open spec fn typed(lobe: Seq<char>, fields: Map<Seq<char>, ValueV>) -> Map<Seq<char>, ValueV> {
    if fields.contains_key("_type"@) {
        fields
    } else {
        fields.insert("_type"@, ValueV::Text(lobe))
    }
}

/// What named values stand for.
pub open spec fn markers_view(s: Seq<(String, Value)>) -> Seq<(Seq<char>, ValueV)> {
    s.map_values(|p: (String, Value)| (p.0@, p.1@))
}

/// Gives the fields a type: their own, or else the lobe's name.
pub fn inject_type(lobe: &str, fields: Fields) -> (r: Fields)
    ensures
        record::fields_view(r@) == typed(lobe@, record::fields_view(fields@)),
{
    let mut r = fields;
    let ghost before = r@;
    if !r.contains_key("_type") {
        let v = Value::Text(lobe.to_owned());
        let ghost vv = v@;
        r.insert("_type".to_owned(), v);
        assert(record::fields_view(r@) =~= record::fields_view(before).insert("_type"@, vv));
    }
    r
}

/// The fields of a record to be written, with a type, and the marked ones.
pub fn build_fields(lobe: &str, puts: &[PutField]) -> (r: (Fields, Vec<(String, Value)>))
    requires
        puts_bound(puts_view(puts@)),
    ensures
        record::fields_view(r.0@) == typed(lobe@, written_fields(puts_view(puts@))),
        markers_view(r.1@) == marked(puts_view(puts@)),
{
    let ghost pv = puts_view(puts@);
    let mut fields: Fields = SortedMap::new();
    let mut markers: Vec<(String, Value)> = Vec::new();
    let mut i: usize = 0;
    proof {
        assert(pv.take(0) =~= Seq::<PutFieldV>::empty());
        assert(record::fields_view(fields@) =~= Map::<Seq<char>, ValueV>::empty());
        assert(markers_view(markers@) =~= Seq::<(Seq<char>, ValueV)>::empty());
    }
    while i < puts.len()
        invariant
            i <= puts@.len(),
            pv == puts_view(puts@),
            puts_bound(pv),
            record::fields_view(fields@) == written_fields(pv.take(i as int)),
            markers_view(markers@) == marked(pv.take(i as int)),
        decreases puts@.len() - i,
    {
        let p = &puts[i];
        proof {
            assert(pv.take(i + 1).drop_last() =~= pv.take(i as int));
            assert(pv.take(i + 1).last() == pv[i as int]);
            assert(pv[i as int] == p@);
        }
        let v = filter::literal_to_value(&p.value);
        let ghost vv = v@;
        if p.gravity {
            let ghost before = markers@;
            markers.push((p.name.clone(), v.clone_value()));
            assert(markers_view(markers@) =~= markers_view(before).push((p.name@, vv)));
        }
        let ghost before = fields@;
        fields.insert(p.name.clone(), v);
        assert(record::fields_view(fields@) =~= record::fields_view(before).insert(p.name@, vv));
        i = i + 1;
    }
    assert(pv.take(i as int) =~= pv);
    (inject_type(lobe, fields), markers)
}

/// The names of marked fields.
pub open spec fn marker_names(m: Seq<(Seq<char>, ValueV)>) -> Seq<Seq<char>> {
    m.map_values(|p: (Seq<char>, ValueV)| p.0)
}

/// Why a record that marks several fields is refused.
pub open spec fn multi_marker_text(lobe: Seq<char>, m: Seq<(Seq<char>, ValueV)>) -> Seq<char> {
    let list = text::joined(marker_names(m), ", "@);
    "record marks multiple gravity fields ("@ + list + ") in lobe '"@ + lobe
        + "' but no composite gravity spec is declared; declare it with `GRAVITY BY ("@ + list
        + ") IN \""@ + lobe
        + "\"` before writing — multiple `*` markers without a declaration would co-locate by only the first field"@
}

/// Why a record that marks several fields is refused.
fn multi_gravity_marker_error(lobe: &str, markers: &[(String, Value)]) -> (r: XyzError)
    ensures
        r matches XyzError::InvalidQuery(m) && m@ == multi_marker_text(
            lobe@,
            markers_view(markers@),
        ),
{
    let mut names: Vec<String> = Vec::new();
    let mut i: usize = 0;
    while i < markers.len()
        invariant
            i <= markers@.len(),
            names@.len() == i,
            forall|j: int| 0 <= j < i ==> (#[trigger] names@[j])@ == markers@[j].0@,
        decreases markers@.len() - i,
    {
        names.push(markers[i].0.clone());
        i = i + 1;
    }
    assert(text::names(names@) =~= marker_names(markers_view(markers@)));
    let list = text::join_all(names.as_slice(), ", ");
    let mut m = "record marks multiple gravity fields (".to_owned();
    m.append(list.as_str());
    m.append(") in lobe '");
    m.append(lobe);
    m.append("' but no composite gravity spec is declared; declare it with `GRAVITY BY (");
    m.append(list.as_str());
    m.append(") IN \"");
    m.append(lobe);
    m.append(
        "\"` before writing — multiple `*` markers without a declaration would co-locate by only the first field",
    );
    XyzError::InvalidQuery(m)
}

/// What an optional specification says.
pub open spec fn opt_spec(s: Option<&GravitySpec>) -> Option<GravitySpecV> {
    match s {
        Some(x) => Some(x@),
        None => None,
    }
}

/// The marked fields call for a composite specification that is not declared.
pub open spec fn undeclared_composite(n: nat, spec: Option<GravitySpecV>) -> bool {
    n >= 2 && !(spec matches Some(s) && s is Composite)
}

/// Refuses a record that marks several fields in a lobe without a composite
/// specification: it would be placed by the first of them alone.
pub fn check_markers(
    lobe: &str,
    markers: &[(String, Value)],
    spec: Option<&GravitySpec>,
) -> (r: Result<(), XyzError>)
    ensures
        if undeclared_composite(markers@.len(), opt_spec(spec)) {
            r matches Err(XyzError::InvalidQuery(m)) && m@ == multi_marker_text(
                lobe@,
                markers_view(markers@),
            )
        } else {
            r is Ok
        },
{
    if markers.len() < 2 {
        return Ok(());
    }
    let composite = match spec {
        Some(GravitySpec::Composite(_)) => true,
        _ => false,
    };
    if composite {
        Ok(())
    } else {
        Err(multi_gravity_marker_error(lobe, markers))
    }
}

/// The field that a record's only mark registers as the lobe's gravity field.
pub open spec fn registered(m: Seq<(Seq<char>, ValueV)>) -> Option<Seq<char>> {
    if m.len() == 1 {
        Some(m[0].0)
    } else {
        None
    }
}

/// The field that a record's only mark registers as the lobe's gravity field.
pub fn field_to_register(markers: &[(String, Value)]) -> (r: Option<String>)
    ensures
        crate::ghost_keys::opt_text(r) == registered(markers_view(markers@)),
{
    if markers.len() == 1 {
        assert(markers_view(markers@)[0] == (markers@[0].0@, markers@[0].1@));
        Some(markers[0].0.clone())
    } else {
        None
    }
}

/// A record to be written: its fields, the marked ones, and the field that is to
/// be registered as the lobe's gravity field.
pub struct PutPlan {
    pub fields: Fields,
    pub markers: Vec<(String, Value)>,
    pub register: Option<String>,
}

/// Reads the fields of a record to be written into a lobe with this
/// specification.
pub fn begin_put(lobe: &str, puts: &[PutField], spec: Option<&GravitySpec>) -> (r: Result<
    PutPlan,
    XyzError,
>)
    requires
        puts_bound(puts_view(puts@)),
    ensures
        ({
            let m = marked(puts_view(puts@));
            if undeclared_composite(m.len(), opt_spec(spec)) {
                r matches Err(XyzError::InvalidQuery(t)) && t@ == multi_marker_text(lobe@, m)
            } else {
                r matches Ok(p) && record::fields_view(p.fields@) == typed(
                    lobe@,
                    written_fields(puts_view(puts@)),
                ) && markers_view(p.markers@) == m && crate::ghost_keys::opt_text(p.register)
                    == registered(m)
            }
        }),
{
    let (fields, markers) = build_fields(lobe, puts);
    assert(markers@.len() == markers_view(markers@).len());
    check_markers(lobe, markers.as_slice(), spec)?;
    let register = field_to_register(markers.as_slice());
    Ok(PutPlan { fields, markers, register })
}

/// The place of the first anchor that the record has.
pub open spec fn first_anchor(
    anchors: Seq<Seq<char>>,
    fields: Map<Seq<char>, ValueV>,
    i: int,
) -> bool {
    &&& 0 <= i < anchors.len()
    &&& fields.contains_key(anchors[i])
    &&& forall|j: int| 0 <= j < i ==> !fields.contains_key(#[trigger] anchors[j])
}

/// What placing a record led to.
#[derive(Clone, Copy, Debug, PartialEq, Eq, Structural)]
pub struct Placed {
    pub hash: u64,
    /// Whether the lobe's specification placed the record, where it has one
    /// and no link placed it.
    pub keel: Option<bool>,
}

/// The storage layer's conventions, with the text of a record's content.
pub struct Placer<H, R, C> {
    pub canon: Canon<H, R>,
    pub content: C,
}

impl<H: Fn(&str) -> u64, R: Fn(&Value) -> String, C: Fn(&Fields) -> String> Placer<H, R, C> {
    /// The conventions accept everything and depend on nothing but what the
    /// argument stands for.
    pub open spec fn sound(&self) -> bool {
        &&& self.canon.sound()
        &&& forall|f: &Fields| #[trigger] self.content.requires((f,))
        &&& forall|f: &Fields, g: &Fields, a: String, b: String|
            #![trigger self.content.ensures((f,), a), self.content.ensures((g,), b)]
            self.content.ensures((f,), a) && self.content.ensures((g,), b) && record::fields_view(
                f@,
            ) == record::fields_view(g@) ==> a@ == b@
    }

    /// `s` is a text of the content.
    pub open spec fn is_content(&self, f: Map<Seq<char>, ValueV>, s: Seq<char>) -> bool {
        exists|g: &Fields, r: String|
            record::fields_view(g@) == f && r@ == s && #[trigger] self.content.ensures((g,), r)
    }

    /// The text of a record's content.
    pub open spec fn content_of(&self, f: Map<Seq<char>, ValueV>) -> Seq<char> {
        choose|s: Seq<char>| self.is_content(f, s)
    }

    /// The hash that places a record without a specification: that of the first
    /// anchor it has, or else of its content.
    pub open spec fn record_hash(
        &self,
        anchors: Seq<Seq<char>>,
        fields: Map<Seq<char>, ValueV>,
    ) -> u64 {
        if exists|i: int| first_anchor(anchors, fields, i) {
            let i = choose|i: int| first_anchor(anchors, fields, i);
            self.canon.hash_of(self.canon.anchor_text(fields[anchors[i]]))
        } else {
            self.canon.hash_of(self.content_of(fields))
        }
    }

    /// The hash that places a record without a specification.
    #[verifier::loop_isolation(false)]
    pub fn compute_record_gravity_hash(&self, anchors: &[String], fields: &Fields) -> (r: u64)
        requires
            self.sound(),
        ensures
            r == self.record_hash(text::names(anchors@), record::fields_view(fields@)),
    {
        let ghost av = text::names(anchors@);
        let ghost fv = record::fields_view(fields@);
        let mut i: usize = 0;
        while i < anchors.len()
            invariant
                i <= anchors@.len(),
                forall|j: int| 0 <= j < i ==> !fv.contains_key(#[trigger] av[j]),
            decreases anchors@.len() - i,
        {
            assert(av[i as int] == anchors@[i as int]@);
            if let Some(v) = fields.get(anchors[i].as_str()) {
                let t = self.canon.value_to_anchor_string(v);
                proof {
                    assert(first_anchor(av, fv, i as int));
                    let k = choose|k: int| first_anchor(av, fv, k);
                    assert(k == i as int) by {
                        if k < i {
                            assert(fv.contains_key(av[k]));
                        } else if i < k {
                            assert(fv.contains_key(av[i as int]));
                        }
                    }
                    assert(fv[av[i as int]] == v@);
                }
                return self.canon.hash_text(t.as_str());
            }
            i = i + 1;
        }
        proof {
            if exists|k: int| first_anchor(av, fv, k) {
                let k = choose|k: int| first_anchor(av, fv, k);
                assert(fv.contains_key(av[k]));
            }
        }
        let t = (self.content)(fields);
        assert(self.is_content(fv, t@));
        self.canon.hash_text(t.as_str())
    }

    /// The hash of a record under the lobe's specification, if it has one and
    /// the record all its fields.
    pub open spec fn keel_of(
        &self,
        spec: Option<GravitySpecV>,
        fields: Map<Seq<char>, ValueV>,
    ) -> Option<u64> {
        match spec {
            Some(s) => gravity_spec::spec_hash(self.canon, s, fields),
            None => None,
        }
    }

    /// Where a record is placed again: under the lobe's specification, or else
    /// by its anchor or content.
    pub open spec fn replaced_hash(
        &self,
        spec: Option<GravitySpecV>,
        anchors: Seq<Seq<char>>,
        fields: Map<Seq<char>, ValueV>,
    ) -> u64 {
        match self.keel_of(spec, fields) {
            Some(h) => h,
            None => self.record_hash(anchors, fields),
        }
    }

    /// The hash of a record under the lobe's specification.
    fn keel(&self, spec: Option<&GravitySpec>, fields: &Fields) -> (r: Option<u64>)
        requires
            self.sound(),
        ensures
            r == self.keel_of(opt_spec(spec), record::fields_view(fields@)),
    {
        match spec {
            Some(s) => s.compute_hash(&self.canon, fields),
            None => None,
        }
    }

    /// Where a record is placed again.
    pub fn gravity_hash_for(
        &self,
        spec: Option<&GravitySpec>,
        anchors: &[String],
        fields: &Fields,
    ) -> (r: u64)
        requires
            self.sound(),
        ensures
            r == self.replaced_hash(
                opt_spec(spec),
                text::names(anchors@),
                record::fields_view(fields@),
            ),
    {
        match self.keel(spec, fields) {
            Some(h) => h,
            None => self.compute_record_gravity_hash(anchors, fields),
        }
    }

    /// Where a new record is placed.
    pub open spec fn placed(
        &self,
        link: Option<u64>,
        spec: Option<GravitySpecV>,
        markers: Seq<(Seq<char>, ValueV)>,
        anchors: Seq<Seq<char>>,
        fields: Map<Seq<char>, ValueV>,
    ) -> Placed {
        match link {
            Some(h) => Placed { hash: h, keel: None },
            None => Placed {
                hash: match self.keel_of(spec, fields) {
                    Some(h) => h,
                    None => if markers.len() > 0 {
                        canon::gravity_hash(self.canon, marker_values(markers))
                    } else {
                        self.record_hash(anchors, fields)
                    },
                },
                keel: match spec {
                    Some(_) => Some(self.keel_of(spec, fields) is Some),
                    None => None,
                },
            },
        }
    }

    /// Places a new record: where the link target is, if there is a link; under
    /// the lobe's specification, if the record has all its fields; by its marked
    /// fields, if there are any; and else by its anchor or content.
    pub fn place(
        &self,
        link: Option<u64>,
        spec: Option<&GravitySpec>,
        markers: &[(String, Value)],
        anchors: &[String],
        fields: &Fields,
    ) -> (r: Placed)
        requires
            self.sound(),
        ensures
            r == self.placed(
                link,
                opt_spec(spec),
                markers_view(markers@),
                text::names(anchors@),
                record::fields_view(fields@),
            ),
    {
        if let Some(h) = link {
            return Placed { hash: h, keel: None };
        }
        let k = self.keel(spec, fields);
        let keel = if spec.is_some() {
            Some(k.is_some())
        } else {
            None
        };
        let hash: u64 = match k {
            Some(h) => h,
            None => if markers.len() > 0 {
                assert(canon::pair_values(markers@) =~= marker_values(markers_view(markers@)));
                canon::compute_gravity_hash(&self.canon, markers)
            } else {
                self.compute_record_gravity_hash(anchors, fields)
            },
        };
        Placed { hash, keel }
    }

    /// The type of a record as a number.
    pub open spec fn type_id(&self, fields: Map<Seq<char>, ValueV>) -> u16 {
        if fields.contains_key("_type"@) && fields["_type"@] is Text {
            (self.canon.hash_of(fields["_type"@]->Text_0) % 0x1_0000) as u16
        } else {
            0
        }
    }

    /// The type of a record as a number.
    pub fn type_id_from_fields(&self, fields: &Fields) -> (r: u16)
        requires
            self.sound(),
        ensures
            r == self.type_id(record::fields_view(fields@)),
    {
        match fields.get("_type") {
            Some(v) => {
                assert(record::fields_view(fields@)["_type"@] == v@);
                match v {
                    Value::Text(t) => (self.canon.hash_text(t.as_str()) % 0x1_0000) as u16,
                    _ => 0,
                }
            },
            None => 0,
        }
    }

    /// A record that no link places and that has all fields of the lobe's
    /// specification lies where a query with the same values looks.
    pub proof fn law_record_lies_where_query_looks(
        &self,
        spec: GravitySpecV,
        markers: Seq<(Seq<char>, ValueV)>,
        anchors: Seq<Seq<char>>,
        fields: Map<Seq<char>, ValueV>,
        filters: Seq<(Seq<char>, record::FilterOp, ValueV)>,
    )
        requires
            pinned_as(filters, gravity_spec::spec_fields(spec), fields),
        ensures
            gravity_spec::pinned_hash(self.canon, spec, filters) == Some(
                self.placed(None, Some(spec), markers, anchors, fields).hash,
            ),
            gravity_spec::pinned_hash(self.canon, spec, filters) == Some(
                self.replaced_hash(Some(spec), anchors, fields),
            ),
    {
        gravity_spec::law_query_hash_is_write_hash(self.canon, spec, fields, filters);
    }

    /// A marked field places a record as the same field under the lobe's
    /// specification does.
    pub proof fn law_mark_is_raw_specification(
        &self,
        name: Seq<char>,
        anchors: Seq<Seq<char>>,
        fields: Map<Seq<char>, ValueV>,
    )
        requires
            fields.contains_key(name),
        ensures
            self.placed(None, None, seq![(name, fields[name])], anchors, fields).hash == self.placed(
                None,
                Some(GravitySpecV::Raw(name)),
                seq![(name, fields[name])],
                anchors,
                fields,
            ).hash,
    {
        let m = seq![(name, fields[name])];
        let s = GravitySpecV::Raw(name);
        assert(gravity_spec::complete(s, fields));
        assert(marker_values(m) =~= gravity_spec::hash_values(self.canon, s, fields));
    }
}

/// The predicates pin the names to the values that the record has.
pub open spec fn pinned_as(
    filters: Seq<(Seq<char>, record::FilterOp, ValueV)>,
    names: Seq<Seq<char>>,
    fields: Map<Seq<char>, ValueV>,
) -> bool {
    forall|i: int|
        0 <= i < names.len() ==> gravity_spec::pinned(filters, #[trigger] names[i])
            && fields.contains_key(names[i]) && fields[names[i]] == gravity_spec::pinned_value(
            filters,
            names[i],
        )
}

/// The values of marked fields.
pub open spec fn marker_values(m: Seq<(Seq<char>, ValueV)>) -> Seq<ValueV> {
    m.map_values(|p: (Seq<char>, ValueV)| p.1)
}

// ---------------------------------------------------------------------------
// What a PUT stores
// ---------------------------------------------------------------------------
/// No field after the one at `i` has its name.
pub open spec fn is_last_of_name(puts: Seq<PutFieldV>, i: int) -> bool {
    &&& 0 <= i < puts.len()
    &&& forall|j: int| i < j < puts.len() ==> (#[trigger] puts[j]).name != puts[i].name
}

proof fn lemma_written(puts: Seq<PutFieldV>, i: int)
    requires
        is_last_of_name(puts, i),
    ensures
        written_fields(puts).contains_key(puts[i].name),
        written_fields(puts)[puts[i].name] == filter::literal_value(puts[i].value),
    decreases puts.len(),
{
    let d = puts.drop_last();
    if i < d.len() {
        assert forall|j: int| i < j < d.len() implies (#[trigger] d[j]).name != d[i].name by {
            assert(d[j] == puts[j]);
        }
        assert(d[i] == puts[i]);
        assert(puts[puts.len() - 1].name != puts[i].name);
        lemma_written(d, i);
    }
}

proof fn lemma_written_names(puts: Seq<PutFieldV>, name: Seq<char>)
    ensures
        written_fields(puts).contains_key(name) <==> exists|i: int|
            0 <= i < puts.len() && (#[trigger] puts[i]).name == name,
    decreases puts.len(),
{
    if puts.len() > 0 {
        let d = puts.drop_last();
        lemma_written_names(d, name);
        if puts.last().name == name {
            assert(puts[puts.len() - 1].name == name);
        }
        if written_fields(d).contains_key(name) {
            let i = choose|i: int| 0 <= i < d.len() && (#[trigger] d[i]).name == name;
            assert(puts[i].name == name);
        }
        if exists|i: int| 0 <= i < puts.len() && (#[trigger] puts[i]).name == name {
            let i = choose|i: int| 0 <= i < puts.len() && (#[trigger] puts[i]).name == name;
            if i < d.len() {
                assert(d[i].name == name);
            }
        }
    }
}

/// A literal is stored as the value that it says: of the same kind and with the same
/// content. An identity is stored as its text. A list is stored element by element, but
/// a long one of floating-point numbers alone as an embedding of as many numbers. An
/// object is stored member by member under the same names. Of two values for one field
/// the last is stored.
pub proof fn law_put_stores_what_it_says(lobe: Seq<char>, puts: Seq<PutFieldV>, i: int)
    requires
        is_last_of_name(puts, i),
    ensures
        ({
            let stored = typed(lobe, written_fields(puts));
            let v = stored[puts[i].name];
            &&& stored.contains_key(puts[i].name)
            &&& match puts[i].value {
                LiteralV::Int(n) => v == ValueV::Int(n),
                LiteralV::Float(x) => v == ValueV::Float(x),
                LiteralV::Text(t) => v == ValueV::Text(t),
                LiteralV::Bool(b) => v == ValueV::Bool(b),
                LiteralV::Null => v == ValueV::Null,
                LiteralV::Lid(t) => v == ValueV::Text(t),
                LiteralV::Timestamp(_) => v is Timestamp,
                LiteralV::List(items) => if items.len() >= 64 && forall|k: int|
                    0 <= k < items.len() ==> #[trigger] items[k] is Float {
                    v is Vector && v->Vector_0.len() == items.len() && forall|k: int|
                        0 <= k < items.len() ==> #[trigger] v->Vector_0[k] == float::narrowed(
                            items[k]->Float_0,
                        )
                } else {
                    v is List && v->List_0.len() == items.len() && forall|k: int|
                        0 <= k < items.len() ==> #[trigger] v->List_0[k] == filter::literal_value(
                            items[k],
                        )
                },
                LiteralV::Object(members) => v is Object && v->Object_0.len() == members.len()
                    && forall|k: int|
                    0 <= k < members.len() ==> (#[trigger] v->Object_0[k]).0 == members[k].0
                        && v->Object_0[k].1 == filter::literal_value(members[k].1),
                LiteralV::Param(_) => true,
            }
        }),
{
    lemma_written(puts, i);
}

/// Different plain literals are stored as different values.
pub proof fn law_put_tells_literals_apart(a: LiteralV, b: LiteralV)
    requires
        a is Int || a is Float || a is Text || a is Bool || a is Null,
        b is Int || b is Float || b is Text || b is Bool || b is Null,
        filter::literal_value(a) == filter::literal_value(b),
    ensures
        a == b,
{
}

/// What is stored are the fields that were written and no other, but for the type: where
/// none is written, it is the name of the lobe.
pub proof fn law_put_stores_no_other(lobe: Seq<char>, puts: Seq<PutFieldV>, name: Seq<char>)
    ensures
        ({
            let stored = typed(lobe, written_fields(puts));
            let written = exists|i: int|
                0 <= i < puts.len() && (#[trigger] puts[i]).name == name;
            &&& name != "_type"@ ==> (stored.contains_key(name) <==> written)
            &&& stored.contains_key("_type"@)
            &&& name == "_type"@ && !written ==> stored[name] == ValueV::Text(lobe)
        }),
{
    lemma_written_names(puts, name);
}

/// The marked fields are those with a mark, in their order, and each is marked with the
/// value that is stored of it where no later one has its name.
pub proof fn law_marks_are_stored(lobe: Seq<char>, puts: Seq<PutFieldV>)
    ensures
        marker_names(marked(puts)) == puts.filter(|f: PutFieldV| f.gravity).map_values(
            |f: PutFieldV| f.name,
        ),
        forall|i: int|
            is_last_of_name(puts, i) && (#[trigger] puts[i]).gravity ==> marked(puts).contains(
                (puts[i].name, typed(lobe, written_fields(puts))[puts[i].name]),
            ),
    decreases puts.len(),
{
    lemma_marked_names(puts);
    assert forall|i: int|
        is_last_of_name(puts, i) && (#[trigger] puts[i]).gravity implies marked(puts).contains(
        (puts[i].name, typed(lobe, written_fields(puts))[puts[i].name]),
    ) by {
        lemma_written(puts, i);
        lemma_marked_has(puts, i);
    }
}

proof fn lemma_marked_names(puts: Seq<PutFieldV>)
    ensures
        marker_names(marked(puts)) == puts.filter(|f: PutFieldV| f.gravity).map_values(
            |f: PutFieldV| f.name,
        ),
    decreases puts.len(),
{
    reveal(Seq::filter);
    let p = |f: PutFieldV| f.gravity;
    let name = |f: PutFieldV| f.name;
    if puts.len() > 0 {
        let d = puts.drop_last();
        lemma_marked_names(d);
        if puts.last().gravity {
            assert(marker_names(marked(puts)) =~= marker_names(marked(d)).push(puts.last().name));
            assert(puts.filter(p).map_values(name) =~= d.filter(p).map_values(name).push(
                puts.last().name,
            ));
        }
    } else {
        assert(marker_names(marked(puts)) =~= puts.filter(p).map_values(name));
    }
}

proof fn lemma_marked_has(puts: Seq<PutFieldV>, i: int)
    requires
        0 <= i < puts.len(),
        puts[i].gravity,
    ensures
        marked(puts).contains((puts[i].name, filter::literal_value(puts[i].value))),
    decreases puts.len(),
{
    let d = puts.drop_last();
    let x = (puts[i].name, filter::literal_value(puts[i].value));
    if i < d.len() {
        lemma_marked_has(d, i);
        let m = marked(d);
        assert(m.contains(x));
        let j = choose|j: int| 0 <= j < m.len() && m[j] == x;
        assert(marked(puts)[j] == x);
    } else {
        assert(marked(puts)[marked(puts).len() - 1] == x);
    }
}

impl<H: Fn(&str) -> u64, R: Fn(&Value) -> String, C: Fn(&Fields) -> String> Placer<H, R, C> {
    /// A record with a link lies where the link leads, whatever else it has.
    pub proof fn law_link_places(
        &self,
        h: u64,
        spec: Option<GravitySpecV>,
        markers: Seq<(Seq<char>, ValueV)>,
        anchors: Seq<Seq<char>>,
        fields: Map<Seq<char>, ValueV>,
    )
        ensures
            self.placed(Some(h), spec, markers, anchors, fields).hash == h,
    {
    }

    /// A record without a link lies by the lobe's specification where it has all its
    /// fields, or else by its marked fields, or else by the first of its anchors that it
    /// has, or else by its content. Said is whether the specification placed it.
    pub proof fn law_what_places_a_record(
        &self,
        spec: Option<GravitySpecV>,
        markers: Seq<(Seq<char>, ValueV)>,
        anchors: Seq<Seq<char>>,
        fields: Map<Seq<char>, ValueV>,
        f: &Fields,
        content: String,
        t: &str,
        h: u64,
    )
        requires
            self.sound(),
            record::fields_view(f@) == fields,
            self.content.ensures((f,), content),
            self.canon.hash.ensures((t,), h),
        ensures
            ({
                let p = self.placed(None, spec, markers, anchors, fields);
                let by_spec = spec matches Some(s) && forall|i: int|
                    0 <= i < gravity_spec::spec_fields(s).len() ==> fields.contains_key(
                        #[trigger] gravity_spec::spec_fields(s)[i],
                    );
                let has_anchor = exists|i: int|
                    0 <= i < anchors.len() && fields.contains_key(#[trigger] anchors[i]);
                &&& by_spec ==> Some(p.hash) == gravity_spec::spec_hash(
                    self.canon,
                    spec->Some_0,
                    fields,
                )
                &&& p.keel == match spec {
                    Some(_) => Some(by_spec),
                    None => None,
                }
                &&& !by_spec && markers.len() > 0 && t@ == text::joined(
                    markers.map_values(|m: (Seq<char>, ValueV)| self.canon.anchor_text(m.1)),
                    seq!['\0'],
                ) ==> p.hash == h
                &&& !by_spec && markers.len() == 0 ==> forall|i: int|
                    0 <= i < anchors.len() && fields.contains_key(#[trigger] anchors[i]) && (forall|
                        j: int,
                    |
                        0 <= j < i ==> !fields.contains_key(#[trigger] anchors[j])) && t@
                        == self.canon.anchor_text(fields[anchors[i]]) ==> p.hash == h
                &&& !by_spec && markers.len() == 0 && !has_anchor && t@ == content@ ==> p.hash == h
            }),
    {
        assert(self.canon.hashes_to(t@, h));
        assert(self.is_content(fields, content@));
        let texts = markers.map_values(|m: (Seq<char>, ValueV)| self.canon.anchor_text(m.1));
        assert(canon::anchor_texts(self.canon, marker_values(markers)) =~= texts);
        assert forall|i: int|
            0 <= i < anchors.len() && fields.contains_key(#[trigger] anchors[i]) && (forall|j: int|
                0 <= j < i ==> !fields.contains_key(#[trigger] anchors[j])) && t@
                == self.canon.anchor_text(fields[anchors[i]]) implies self.record_hash(
            anchors,
            fields,
        ) == h by {
            assert(first_anchor(anchors, fields, i));
            let k = choose|k: int| first_anchor(anchors, fields, k);
            assert(first_anchor(anchors, fields, k));
            if k < i {
                assert(fields.contains_key(anchors[k]));
            }
        }
    }

    /// The type of a record is the low half word of the hash of its type's name, and zero
    /// where it has no name of a type.
    pub proof fn law_type_is_hash_of_name(
        &self,
        fields: Map<Seq<char>, ValueV>,
        t: &str,
        h: u64,
    )
        requires
            self.sound(),
            self.canon.hash.ensures((t,), h),
        ensures
            fields.contains_key("_type"@) && fields["_type"@] == ValueV::Text(t@) ==> self.type_id(
                fields,
            ) == h % 65536,
            !fields.contains_key("_type"@) ==> self.type_id(fields) == 0,
    {
        assert(self.canon.hashes_to(t@, h));
    }
}

/// A record with one mark registers the marked field; one that marks several is refused
/// unless the lobe declares a specification of several fields.
pub proof fn law_marks_register_or_are_refused(
    m: Seq<(Seq<char>, ValueV)>,
    spec: Option<GravitySpecV>,
)
    ensures
        m.len() == 1 ==> registered(m) == Some(m[0].0) && !undeclared_composite(m.len(), spec),
        m.len() != 1 ==> registered(m) is None,
        m.len() >= 2 ==> (undeclared_composite(m.len(), spec) <==> !(spec matches Some(
            GravitySpecV::Composite(_),
        ))),
        m.len() == 0 ==> !undeclared_composite(m.len(), spec),
{
}

} // verus!
