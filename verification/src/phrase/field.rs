//! A phrase that collects the value of a field.
use vstd::prelude::*;
use crate::field_type::FieldType;
use crate::phrase::result::{add_to, FieldMap, PhraseOutcome, PhraseResult};

verus! {

/// A named field: its value is found by its field type and recorded under its name.
pub struct Field {
    name: String,
    field_type: FieldType,
}

/// The match of a field named `name` whose type found `value`.
pub open spec fn field_outcome(name: Seq<char>, value: (Seq<char>, nat, nat)) -> PhraseOutcome {
    PhraseOutcome {
        confidence: value.2,
        fields: add_to(FieldMap::empty(), name, seq![value.0]),
        length: value.1,
    }
}

impl Field {
    pub closed spec fn name_view(&self) -> Seq<char> {
        self.name@
    }

    pub closed spec fn kind(&self) -> FieldType {
        self.field_type
    }

    pub fn new(name: &String, field_type: FieldType) -> (res: Field)
        ensures
            res.name_view() == name@,
            res.kind() == field_type,
    {
        Field { name: name.clone(), field_type }
    }

    pub fn field_type(&self) -> (res: &FieldType)
        ensures
            *res == self.kind(),
    {
        &self.field_type
    }

    /// The result of this field when its type found `value`.
    pub fn result_from(&self, value: (String, usize, u64)) -> (res: PhraseResult)
        ensures
            res.wf(),
            res@ == field_outcome(self.name_view(), (value.0@, value.1 as nat, value.2 as nat)),
    {
        let (v, l, c) = value;
        let mut result = PhraseResult::new(c, l);
        let mut values: Vec<String> = Vec::new();
        values.push(v);
        proof {
            assert(crate::text::views(values@) =~= seq![value.0@]);
        }
        result.add_values(&self.name, &values);
        result
    }

    pub fn get_name(&self) -> (res: &String)
        ensures
            res@ == self.name_view(),
    {
        &self.name
    }
}

} // verus!
