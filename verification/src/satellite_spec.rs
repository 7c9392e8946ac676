//! The axis by which a lobe divides each of its gravity buckets.

use crate::bytes;
use crate::gravity_spec;
use crate::record;
use crate::record::{Fields, FilterOp};
use crate::value::{Value, ValueV};
use crate::wire;
use vstd::prelude::*;

verus! {

/// The only format of the slot: one field name.
pub const SPEC_FORMAT: u8 = 0x01;

/// The field whose value divides a gravity bucket.
#[derive(Clone, Debug, PartialEq, Eq)]
pub struct SatelliteSpec {
    pub field: String,
}

impl SatelliteSpec {
    /// A specification for the field.
    pub fn new(field: &str) -> (r: Self)
        ensures
            r.field@ == field@,
    {
        SatelliteSpec { field: field.to_owned() }
    }

    /// Writes the specification for its dictionary slot.
    pub fn encode(&self, magic: [u8; 2]) -> (r: Result<Vec<u8>, postcard::Error>)
        ensures
            r matches Ok(b) && b@ == gravity_spec::enveloped(
                magic,
                SPEC_FORMAT,
                wire::packed_text(self.field@),
            ),
    {
        let payload = wire::pack_text(self.field.as_str())?;
        Ok(gravity_spec::envelope(magic, SPEC_FORMAT, payload.as_slice()))
    }

    /// Reads a dictionary slot; an envelope with another magic or format holds
    /// no specification. What [`SatelliteSpec::encode`] wrote is read back.
    pub fn decode(magic: [u8; 2], b: &[u8]) -> (r: Option<SatelliteSpec>)
        ensures
            match r {
                Some(s) => gravity_spec::has_envelope(magic, b@) && b@[2] == SPEC_FORMAT && (
                wire::taken_text(b@.skip(3)) matches Some((f, _)) && f == s.field@),
                None => !gravity_spec::has_envelope(magic, b@) || b@[2] != SPEC_FORMAT
                    || wire::taken_text(b@.skip(3)) is None,
            },
            forall|f: Seq<char>|
                b@ == #[trigger] gravity_spec::enveloped(magic, SPEC_FORMAT, wire::packed_text(f))
                    ==> (r matches Some(s) && s.field@ == f),
    {
        if !gravity_spec::is_enveloped(magic, b) {
            return None;
        }
        if b[2] != SPEC_FORMAT {
            return None;
        }
        let payload = bytes::sub_bytes(b, 3, b.len());
        assert(payload@ =~= b@.skip(3));
        let got = wire::take_text(payload.as_slice());
        proof {
            assert forall|f: Seq<char>|
                b@ == #[trigger] gravity_spec::enveloped(
                    magic,
                    SPEC_FORMAT,
                    wire::packed_text(f),
                ) implies (got matches Some((g, _)) && g@ == f) by {
                assert(payload@ =~= wire::packed_text(f) + Seq::<u8>::empty());
            }
        }
        match got {
            Some((f, _)) => Some(SatelliteSpec { field: f }),
            None => None,
        }
    }
}

/// The axis of a lobe, if it has one, and the number of the satellite that
/// takes the records with a value.
pub struct SatelliteAxis<A> {
    pub spec: Option<SatelliteSpec>,
    pub number: A,
}

impl<A: Fn(&Value) -> u16> SatelliteAxis<A> {
    /// Every value has a number, which depends on nothing but the value.
    pub open spec fn sound(&self) -> bool {
        &&& forall|v: &Value| #[trigger] self.number.requires((v,))
        &&& forall|v: &Value, w: &Value, a: u16, b: u16|
            #![trigger self.number.ensures((v,), a), self.number.ensures((w,), b)]
            self.number.ensures((v,), a) && self.number.ensures((w,), b) && v@ == w@ ==> a == b
    }

    /// `n` is the number for the value.
    pub open spec fn is_number(&self, v: ValueV, n: u16) -> bool {
        exists|w: &Value| w@ == v && #[trigger] self.number.ensures((w,), n)
    }

    /// The number for a value.
    pub open spec fn number_of(&self, v: ValueV) -> u16 {
        choose|n: u16| self.is_number(v, n)
    }

    /// The satellite of a record with the fields: that of its value on the axis.
    pub open spec fn satellite(&self, fields: Map<Seq<char>, ValueV>) -> Option<u16> {
        match self.spec {
            Some(s) => if fields.contains_key(s.field@) {
                Some(self.number_of(fields[s.field@]))
            } else {
                None
            },
            None => None,
        }
    }

    /// The satellite that the predicates pin a search to: that of the value that
    /// they pin the axis to.
    pub open spec fn pinned(
        &self,
        filters: Seq<(Seq<char>, FilterOp, ValueV)>,
    ) -> Option<u16> {
        match self.spec {
            Some(s) => if gravity_spec::pinned(filters, s.field@) {
                Some(self.number_of(gravity_spec::pinned_value(filters, s.field@)))
            } else {
                None
            },
            None => None,
        }
    }

    /// The number for a value.
    fn number_for(&self, v: &Value) -> (n: u16)
        requires
            self.sound(),
        ensures
            n == self.number_of(v@),
    {
        let n: u16 = (self.number)(v);
        assert(self.is_number(v@, n));
        n
    }

    /// The satellite of a record, or `None` where the lobe has no axis or the
    /// record no value on it.
    pub fn satellite_of(&self, fields: &Fields) -> (r: Option<u16>)
        requires
            self.sound(),
        ensures
            r == self.satellite(record::fields_view(fields@)),
    {
        match &self.spec {
            Some(s) => match fields.get(s.field.as_str()) {
                Some(v) => {
                    assert(record::fields_view(fields@)[s.field@] == v@);
                    Some(self.number_for(v))
                },
                None => None,
            },
            None => None,
        }
    }

    /// The satellite that a search with the predicates looks in, or `None` where
    /// it looks in the whole bucket.
    pub fn pinned_satellite(&self, filters: &[(String, FilterOp, Value)]) -> (r: Option<u16>)
        requires
            self.sound(),
        ensures
            r == self.pinned(record::predicates_view(filters@)),
    {
        let ghost fv = record::predicates_view(filters@);
        match &self.spec {
            Some(s) => match gravity_spec::find_pin(filters, s.field.as_str()) {
                Some(i) => {
                    proof {
                        let k = choose|k: int| #[trigger]
                            gravity_spec::pins_at(fv, s.field@, k);
                        assert(gravity_spec::pins_at(fv, s.field@, k));
                        assert(fv[i as int].0 == s.field@);
                        assert(k == i);
                        assert(fv[i as int] == record::predicate_view(filters@[i as int]));
                    }
                    Some(self.number_for(&filters[i].2))
                },
                None => None,
            },
            None => None,
        }
    }

    /// A record that has the value to which the predicates pin the axis lies in
    /// the satellite where a search with them looks.
    pub proof fn law_record_lies_in_searched_satellite(
        &self,
        fields: Map<Seq<char>, ValueV>,
        filters: Seq<(Seq<char>, FilterOp, ValueV)>,
    )
        requires
            self.spec matches Some(s) ==> gravity_spec::pinned(filters, s.field@)
                && fields.contains_key(s.field@) && fields[s.field@]
                == gravity_spec::pinned_value(filters, s.field@),
        ensures
            self.satellite(fields) == self.pinned(filters),
            self.spec is Some ==> self.satellite(fields) is Some,
    {
    }
}

impl<A: Fn(&Value) -> u16> SatelliteAxis<A> {
    /// A record lies in the satellite whose number its value on the axis has, and in none
    /// without an axis or without the value.
    pub proof fn law_satellite_is_number_of_value(
        &self,
        fields: Map<Seq<char>, ValueV>,
        v: &Value,
        n: u16,
    )
        requires
            self.sound(),
            self.number.ensures((v,), n),
        ensures
            match self.spec {
                Some(s) => {
                    &&& self.satellite(fields) is Some <==> fields.contains_key(s.field@)
                    &&& fields.contains_key(s.field@) && fields[s.field@] == v@ ==> self.satellite(
                        fields,
                    ) == Some(n)
                },
                None => self.satellite(fields) is None,
            },
    {
        assert(self.is_number(v@, n));
    }
}

} // verus!
