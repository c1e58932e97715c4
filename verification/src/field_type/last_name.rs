//! The built-in field type for last names.
use vstd::prelude::*;
use crate::text::{is_uppercase, uppercase_char, views};

verus! {

/// Confidence given to a capitalised last name.
pub const CAPITALISED_CONFIDENCE: u64 = 900_000u64;

/// Confidence given to a last name that is not capitalised.
pub const LOWER_CONFIDENCE: u64 = 500_000u64;

/// A last name is the first input word, whatever it is; a capital first letter
/// makes it more likely.
pub struct LastName {}

/// The value, length and confidence that `LastName` gives for `input`; `None` where
/// the first word is empty (it has no first letter to look at).
pub open spec fn last_name_value(input: Seq<Seq<char>>) -> Option<(Seq<char>, nat, nat)> {
    if input.len() == 0 {
        Some((Seq::empty(), 0, 0))
    } else if input[0].len() == 0 {
        None
    } else if uppercase_char(input[0][0]) {
        Some((input[0], 1, CAPITALISED_CONFIDENCE as nat))
    } else {
        Some((input[0], 1, LOWER_CONFIDENCE as nat))
    }
}

impl LastName {
    pub fn new() -> (res: LastName) {
        LastName {  }
    }

    /// The last name at the start of `input`, with the words it covers and the
    /// confidence.
    pub fn get_value(&self, input: &[String]) -> (res: (String, usize, u64))
        requires
            last_name_value(views(input@)) is Some,
        ensures
            last_name_value(views(input@)) == Some((res.0@, res.1 as nat, res.2 as nat)),
    {
        if input.len() == 0 {
            return (String::new(), 0, 0);
        }
        let w = &input[0];
        let cs = crate::text::chars_of(w.as_str());
        assert(views(input@)[0] == w@);
        let first = cs[0];
        let confidence = if is_uppercase(first) {
            CAPITALISED_CONFIDENCE
        } else {
            LOWER_CONFIDENCE
        };
        (w.clone(), 1, confidence)
    }
}

/// A name is the whole first word and covers one word; it is taken with the
/// capitalised confidence exactly when the first letter of that word is uppercase in
/// the Unicode sense (`char::is_uppercase`: also `É`, `Ø`, `Ł`, not only `A` to `Z`),
/// and with the lower confidence otherwise.
pub proof fn law_last_name_capitalised(input: Seq<Seq<char>>)
    requires
        input.len() > 0,
        input[0].len() > 0,
    ensures
        last_name_value(input) is Some,
        last_name_value(input).unwrap().0 == input[0],
        last_name_value(input).unwrap().1 == 1,
        last_name_value(input).unwrap().2 == CAPITALISED_CONFIDENCE as nat <==> uppercase_char(input[0][0]),
        !uppercase_char(input[0][0]) ==> last_name_value(input).unwrap().2 == LOWER_CONFIDENCE as nat,
{
}

} // verus!
