//! A phrase that matches whichever of its alternatives matches best.
use vstd::prelude::*;

verus! {

/// Alternatives: the best match among the member phrases wins.
pub struct GroupPhrase {
    name: String,
    phrases: Vec<usize>,
}

impl GroupPhrase {
    pub closed spec fn name_view(&self) -> Seq<char> {
        self.name@
    }

    /// The member phrases, by their index in the phrase store.
    pub closed spec fn members(&self) -> Seq<usize> {
        self.phrases@
    }

    pub fn new(name: &String, phrases: Vec<usize>) -> (res: GroupPhrase)
        ensures
            res.name_view() == name@,
            res.members() == phrases@,
    {
        GroupPhrase { name: name.clone(), phrases }
    }

    /// Adds one more alternative.
    pub fn push(&mut self, phrase: usize)
        ensures
            final(self).name_view() == old(self).name_view(),
            final(self).members() == old(self).members().push(phrase),
    {
        self.phrases.push(phrase);
    }

    pub fn members_ref(&self) -> (res: &Vec<usize>)
        ensures
            res@ == self.members(),
    {
        &self.phrases
    }

    pub fn get_name(&self) -> (res: &String)
        ensures
            res@ == self.name_view(),
    {
        &self.name
    }
}

} // verus!
