//! The built-in first-name field type.
use vstd::prelude::*;
use crate::field_type::last_name::{last_name_value, LastName};
use crate::text::views;

verus! {

/// A first name is found as a last name is: it is the first input word, and a
/// capital first letter makes it more likely (see `last_name_value`).
pub struct FirstName {}

impl FirstName {
    pub fn new() -> (res: FirstName) {
        FirstName {  }
    }

    /// The first name at the start of `input`, with the words it covers and the
    /// confidence.
    pub fn get_value(&self, input: &[String]) -> (res: (String, usize, u64))
        requires
            last_name_value(views(input@)) is Some,
        ensures
            last_name_value(views(input@)) == Some((res.0@, res.1 as nat, res.2 as nat)),
    {
        LastName::new().get_value(input)
    }
}

} // verus!
