//! A phrase made of parts that must match one after the other.
use vstd::prelude::*;

verus! {

/// A sequence of phrases matched in turn.
pub struct MetaPhrase {
    name: String,
    phrases: Vec<usize>,
}

impl MetaPhrase {
    pub closed spec fn name_view(&self) -> Seq<char> {
        self.name@
    }

    /// The parts, by their index in the phrase store.
    pub closed spec fn parts(&self) -> Seq<usize> {
        self.phrases@
    }

    pub fn new(name: &String, phrases: Vec<usize>) -> (res: MetaPhrase)
        ensures
            res.name_view() == name@,
            res.parts() == phrases@,
    {
        MetaPhrase { name: name.clone(), phrases }
    }

    pub fn parts_ref(&self) -> (res: &Vec<usize>)
        ensures
            res@ == self.parts(),
    {
        &self.phrases
    }

    pub fn get_name(&self) -> (res: &String)
        ensures
            res@ == self.name_view(),
    {
        &self.name
    }
}

} // verus!
