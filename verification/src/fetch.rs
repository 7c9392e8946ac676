//! Fetching records of several lobes as one.

use crate::error;
use crate::error::XyzError;
use crate::record;
use crate::record::{Fields, Record, RecordV};
use crate::sorted_map::SortedMap;
use crate::text;
use crate::value;
use crate::value::{Value, ValueV};
use vstd::prelude::*;

verus! {

/// Why a fetch with another number of names than of lobes is refused.
pub open spec fn names_text(names: int, lobes: int) -> Seq<char> {
    "FETCH AS lists "@ + text::decimal(names) + " name(s) for "@ + text::decimal(lobes)
        + " lobe(s) — one section name per lobe"@
}

/// The names of a fetch's sections: those given, or else the lobes'. A fetch
/// needs a predicate, and a name for each lobe where it gives names.
pub fn section_names(filtered: bool, lobes: &Vec<String>, names: Option<&Vec<String>>) -> (r: Result<
    Vec<String>,
    XyzError,
>)
    ensures
        if !filtered {
            error::is_invalid(
                r,
                "FETCH requires WHERE — add the shared predicate that selects the co-located records across the lobes"@,
            )
        } else {
            match names {
                Some(ns) => if ns@.len() != lobes@.len() {
                    error::is_invalid(r, names_text(ns@.len() as int, lobes@.len() as int))
                } else {
                    r matches Ok(v) && text::names(v@) == text::names(ns@)
                },
                None => r matches Ok(v) && text::names(v@) == text::names(lobes@),
            }
        },
{
    if !filtered {
        return error::invalid(
            "FETCH requires WHERE — add the shared predicate that selects the co-located records across the lobes",
        );
    }
    match names {
        Some(ns) => {
            if ns.len() != lobes.len() {
                let a = text::decimal_text(ns.len() as i128);
                let b = text::decimal_text(lobes.len() as i128);
                let mut m = text::join3("FETCH AS lists ", a.as_str(), " name(s) for ");
                m.append(b.as_str());
                m.append(" lobe(s) — one section name per lobe");
                return error::invalid(m.as_str());
            }
            Ok(text::clone_names(ns.as_slice()))
        },
        None => Ok(text::clone_names(lobes.as_slice())),
    }
}

/// The fields of a record as a value, by name.
pub open spec fn object_of(s: Seq<(String, Value)>) -> ValueV {
    ValueV::Object(value::pairs_view(s))
}

/// The fields of a record as a value, by name.
pub fn fields_object(f: &Fields) -> (r: Value)
    ensures
        r@ == object_of(f.listed()),
{
    let ghost all = f.listed();
    let mut pairs: Vec<(String, Value)> = Vec::new();
    let mut i: usize = 0;
    while i < f.len()
        invariant
            all == f.listed(),
            i <= all.len(),
            pairs@.len() == i,
            forall|j: int|
                0 <= j < i ==> (#[trigger] pairs@[j]).0@ == all[j].0@ && pairs@[j].1@ == all[j].1@,
        decreases all.len() - i,
    {
        pairs.push((f.name_at(i).clone(), f.value_at(i).clone_value()));
        i = i + 1;
    }
    assert(value::pairs_view(pairs@) =~= value::pairs_view(all));
    Value::Object(pairs)
}

/// The records of a section as a value.
pub open spec fn section_of(s: Seq<Record>) -> ValueV {
    ValueV::List(s.map_values(|r: Record| object_of(r.fields.listed())))
}

fn make_section(recs: &Vec<Record>) -> (r: Value)
    ensures
        r@ == section_of(recs@),
{
    let mut rows: Vec<Value> = Vec::new();
    let mut i: usize = 0;
    while i < recs.len()
        invariant
            i <= recs@.len(),
            rows@.len() == i,
            forall|j: int|
                0 <= j < i ==> (#[trigger] rows@[j])@ == object_of(recs@[j].fields.listed()),
        decreases recs@.len() - i,
    {
        rows.push(fields_object(&recs[i].fields));
        i = i + 1;
    }
    assert(value::values_view(rows@) =~= recs@.map_values(
        |r: Record| object_of(r.fields.listed()),
    ));
    Value::List(rows)
}

/// The sections by name; the last one of a name counts.
pub open spec fn sections_of(names: Seq<Seq<char>>, found: Seq<Vec<Record>>, n: int) -> Map<
    Seq<char>,
    ValueV,
>
    decreases n,
{
    if n <= 0 {
        Map::empty()
    } else {
        sections_of(names, found, n - 1).insert(names[n - 1], section_of(found[n - 1]@))
    }
}

/// Packs what was found in each lobe into one record, which is no stored one: it
/// has no identity and no times. `found` are the records of the lobes in the
/// order of the names.
pub fn execute_fetch(names: &Vec<String>, found: &Vec<Vec<Record>>) -> (r: Record)
    requires
        names@.len() == found@.len(),
    ensures
        r@ == (RecordV {
            lid: 0,
            lobe_name: "fetch"@,
            fields: sections_of(text::names(names@), found@, names@.len() as int),
            created_at: 0,
            updated_at: 0,
        }),
{
    let ghost nv = text::names(names@);
    let mut fields: Fields = SortedMap::new();
    let mut i: usize = 0;
    assert(record::fields_view(fields@) =~= Map::<Seq<char>, ValueV>::empty());
    while i < names.len()
        invariant
            i <= names@.len(),
            names@.len() == found@.len(),
            nv == text::names(names@),
            record::fields_view(fields@) == sections_of(nv, found@, i as int),
        decreases names@.len() - i,
    {
        let v = make_section(&found[i]);
        let ghost vv = v@;
        let ghost before = record::fields_view(fields@);
        fields.insert(names[i].clone(), v);
        assert(nv[i as int] == names@[i as int]@);
        assert(record::fields_view(fields@) =~= before.insert(nv[i as int], vv));
        i = i + 1;
    }
    Record { lid: 0, lobe_name: "fetch".to_owned(), fields, created_at: 0, updated_at: 0 }
}

/// Under each name stand the records that were found for it, all of them and in their
/// order; of two sections with one name the last. There is no other section.
pub proof fn law_sections_hold_what_was_found(
    names: Seq<Seq<char>>,
    found: Seq<Vec<Record>>,
    i: int,
    name: Seq<char>,
)
    requires
        names.len() == found.len(),
        0 <= i < names.len(),
        forall|j: int| i < j < names.len() ==> #[trigger] names[j] != names[i],
    ensures
        ({
            let sections = sections_of(names, found, names.len() as int);
            let section = sections[names[i]];
            &&& sections.contains_key(names[i])
            &&& section is List
            &&& section->List_0.len() == found[i]@.len()
            &&& forall|k: int|
                #![trigger section->List_0[k]]
                0 <= k < found[i]@.len() ==> {
                    let row = section->List_0[k];
                    let entries = found[i]@[k].fields.listed();
                    &&& row is Object
                    &&& row->Object_0.len() == entries.len()
                    &&& forall|l: int|
                        #![trigger row->Object_0[l]]
                        0 <= l < entries.len() ==> row->Object_0[l] == (
                            entries[l].0@,
                            entries[l].1@,
                        )
                }
            &&& sections.contains_key(name) ==> names.contains(name)
        }),
{
    lemma_section(names, found, names.len() as int, i);
    if sections_of(names, found, names.len() as int).contains_key(name) {
        lemma_section_names(names, found, names.len() as int, name);
    }
    let section = section_of(found[i]@);
    assert forall|k: int| #![trigger section->List_0[k]] 0 <= k < found[i]@.len() implies ({
        let row = section->List_0[k];
        let entries = found[i]@[k].fields.listed();
        &&& row is Object
        &&& row->Object_0.len() == entries.len()
        &&& forall|l: int|
            #![trigger row->Object_0[l]]
            0 <= l < entries.len() ==> row->Object_0[l] == (entries[l].0@, entries[l].1@)
    }) by {}
}

proof fn lemma_section(names: Seq<Seq<char>>, found: Seq<Vec<Record>>, n: int, i: int)
    requires
        0 <= i < n <= names.len(),
        forall|j: int| i < j < n ==> #[trigger] names[j] != names[i],
    ensures
        sections_of(names, found, n).contains_key(names[i]),
        sections_of(names, found, n)[names[i]] == section_of(found[i]@),
    decreases n,
{
    if i < n - 1 {
        assert(names[n - 1] != names[i]);
        lemma_section(names, found, n - 1, i);
    }
}

proof fn lemma_section_names(names: Seq<Seq<char>>, found: Seq<Vec<Record>>, n: int, name: Seq<char>)
    requires
        0 <= n <= names.len(),
        sections_of(names, found, n).contains_key(name),
    ensures
        names.contains(name),
    decreases n,
{
    if n > 0 && names[n - 1] != name {
        lemma_section_names(names, found, n - 1, name);
    } else if n > 0 {
        assert(names[n - 1] == name);
    }
}

} // verus!
