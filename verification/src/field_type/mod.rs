//! Field types: what kind of value a field collects and how it is recognised.
pub mod custom;
pub mod first_name;
pub mod last_name;

use vstd::prelude::*;
use crate::field_type::custom::Custom;
use crate::field_type::first_name::FirstName;
use crate::field_type::last_name::LastName;

verus! {

/// How the value of a field is found in the input.
pub enum FieldType {
    LastName(LastName),
    FirstName(FirstName),
    Custom(Custom),
}

impl FieldType {
    /// The phrases that the field type matches the input against.
    pub open spec fn phrase_ids(&self) -> Seq<usize> {
        match self {
            FieldType::LastName(_) => Seq::empty(),
            FieldType::FirstName(_) => Seq::empty(),
            FieldType::Custom(c) => c@.map_values(|s: (Seq<char>, usize)| s.1),
        }
    }

    /// A copy of the same kind, with the same values and phrases.
    pub fn duplicate(&self) -> (res: FieldType)
        ensures
            res is LastName <==> self is LastName,
            res is FirstName <==> self is FirstName,
            res matches FieldType::Custom(c) ==> self matches FieldType::Custom(d) && c@ == d@,
            res.phrase_ids() == self.phrase_ids(),
            res.wf() == self.wf(),
    {
        match self {
            FieldType::LastName(_) => FieldType::LastName(LastName::new()),
            FieldType::FirstName(_) => FieldType::FirstName(FirstName::new()),
            FieldType::Custom(c) => FieldType::Custom(c.duplicate()),
        }
    }

    pub open spec fn wf(&self) -> bool {
        match self {
            FieldType::LastName(_) => true,
            FieldType::FirstName(_) => true,
            FieldType::Custom(c) => c.wf(),
        }
    }
}

/// The name of the built-in last-name field type.
pub open spec fn last_name_type_name() -> Seq<char> {
    seq!['L', 'A', 'S', 'T', '_', 'N', 'A', 'M', 'E']
}

/// The name of the built-in first-name field type.
pub open spec fn first_name_type_name() -> Seq<char> {
    seq!['F', 'I', 'R', 'S', 'T', '_', 'N', 'A', 'M', 'E']
}

/// `name` names a built-in field type.
pub open spec fn builtin_type_name(name: Seq<char>) -> bool {
    name == last_name_type_name() || name == first_name_type_name()
}

/// `t` is of the built-in kind that `name` names, if any.
pub open spec fn builtin_kind(t: FieldType, name: Seq<char>) -> bool {
    &&& t is LastName <==> name == last_name_type_name()
    &&& t is FirstName <==> name == first_name_type_name()
}

/// The built-in field type called `name`, if there is one.
pub fn get_default_type(name: &str) -> (res: Option<FieldType>)
    ensures
        res is Some <==> builtin_type_name(name@),
        res matches Some(t) ==> builtin_kind(t, name@),
{
    let owned = name.to_owned();
    let first = String::from_str("FIRST_NAME");
    let last = String::from_str("LAST_NAME");
    proof {
        reveal_strlit("FIRST_NAME");
        reveal_strlit("LAST_NAME");
        assert(first@ =~= first_name_type_name());
        assert(last@ =~= last_name_type_name());
        assert(first_name_type_name() != last_name_type_name()) by {
            assert(first_name_type_name().len() != last_name_type_name().len());
        }
    }
    if owned == first {
        Some(FieldType::FirstName(FirstName::new()))
    } else if owned == last {
        Some(FieldType::LastName(LastName::new()))
    } else {
        None
    }
}

} // verus!
