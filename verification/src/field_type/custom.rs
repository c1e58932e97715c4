//! Field types defined in the configuration, with synonyms.
use vstd::prelude::*;

verus! {

/// One alternative of a custom field type: the value it stands for and the phrase
/// that recognises it.
pub struct Synonym {
    pub name: String,
    pub phrase: usize,
}

/// A field type whose values are listed in the configuration: each value is
/// recognised by a phrase (the value itself or one of its synonyms).
pub struct Custom {
    phrases: Vec<Synonym>,
}

/// No value occurs twice.
pub open spec fn distinct_values(l: Seq<(Seq<char>, usize)>) -> bool {
    forall|i: int, j: int| 0 <= i < j < l.len() ==> l[i].0 != l[j].0
}

/// `l` after giving the value `name` the phrase `p`: the phrase of an existing value
/// is replaced, a new value goes last.
pub open spec fn with_synonym(l: Seq<(Seq<char>, usize)>, name: Seq<char>, p: usize) -> Seq<(Seq<char>, usize)> {
    if exists|i: int| 0 <= i < l.len() && l[i].0 == name {
        let i = choose|i: int| 0 <= i < l.len() && l[i].0 == name;
        l.update(i, (name, p))
    } else {
        l.push((name, p))
    }
}

impl Custom {
    /// The values with their phrases, in the order they were first given.
    pub closed spec fn view(&self) -> Seq<(Seq<char>, usize)> {
        self.phrases@.map_values(|s: Synonym| (s.name@, s.phrase))
    }

    pub open spec fn wf(&self) -> bool {
        distinct_values(self@)
    }

    pub fn new() -> (res: Custom)
        ensures
            res.wf(),
            res@ == Seq::<(Seq<char>, usize)>::empty(),
    {
        let res = Custom { phrases: Vec::new() };
        assert(res@ =~= Seq::<(Seq<char>, usize)>::empty());
        res
    }

    /// Makes the phrase `phrases` recognise the value `name`.
    pub fn insert_synonym(&mut self, name: String, phrases: usize)
        requires
            old(self).wf(),
        ensures
            final(self).wf(),
            final(self)@ == with_synonym(old(self)@, name@, phrases),
            forall|i: int|
                0 <= i < final(self)@.len() ==> #[trigger] final(self)@[i] == (name@, phrases) || old(self)@.contains(
                    final(self)@[i],
                ),
            final(self)@.contains((name@, phrases)),
            forall|k: int|
                0 <= k < old(self)@.len() ==> exists|j: int|
                    0 <= j < final(self)@.len() && final(self)@[j].0 == #[trigger] old(self)@[k].0,
    {
        let mut i: usize = 0;
        while i < self.phrases.len()
            invariant
                i <= self.phrases@.len(),
                self.wf(),
                self@ == old(self)@,
                forall|j: int| 0 <= j < i ==> self@[j].0 != name@,
            decreases self.phrases.len() - i,
        {
            if self.phrases[i].name == name {
                let ghost old_view = self@;
                proof {
                    assert(old_view[i as int].0 == name@);
                    assert(exists|k: int| 0 <= k < old_view.len() && old_view[k].0 == name@);
                    let k = choose|k: int| 0 <= k < old_view.len() && old_view[k].0 == name@;
                    assert(k == i);
                }
                self.phrases.set(i, Synonym { name, phrase: phrases });
                assert(self@ =~= old_view.update(i as int, (old_view[i as int].0, phrases)));
                assert(self@[i as int] == (old_view[i as int].0, phrases));
                assert forall|k: int| 0 <= k < old_view.len() implies exists|j: int|
                    0 <= j < self@.len() && self@[j].0 == #[trigger] old_view[k].0 by {
                    assert(self@[k].0 == old_view[k].0);
                }
                assert forall|j: int| 0 <= j < self@.len() implies #[trigger] self@[j] == (old_view[i as int].0, phrases)
                    || old_view.contains(self@[j]) by {
                    if j != i {
                        assert(self@[j] == old_view[j]);
                    }
                }
                return;
            }
            i = i + 1;
        }
        let ghost old_view = self@;
        let ghost name_view = name@;
        self.phrases.push(Synonym { name, phrase: phrases });
        assert(self@ =~= old_view.push((name_view, phrases)));
        assert(self@[old_view.len() as int] == (name_view, phrases));
        assert forall|k: int| 0 <= k < old_view.len() implies exists|j: int|
            0 <= j < self@.len() && self@[j].0 == #[trigger] old_view[k].0 by {
            assert(self@[k] == old_view[k]);
        }
        assert forall|j: int| 0 <= j < self@.len() implies #[trigger] self@[j] == (name_view, phrases) || old_view.contains(
            self@[j],
        ) by {
            if j < old_view.len() {
                assert(self@[j] == old_view[j]);
            }
        }
    }

    /// A copy with the same values and phrases.
    pub fn duplicate(&self) -> (res: Custom)
        ensures
            res@ == self@,
    {
        let mut phrases: Vec<Synonym> = Vec::new();
        let mut i: usize = 0;
        while i < self.phrases.len()
            invariant
                i <= self.phrases@.len(),
                phrases@.map_values(|s: Synonym| (s.name@, s.phrase)) == self@.take(i as int),
            decreases self.phrases.len() - i,
        {
            let ghost prev = phrases@;
            phrases.push(Synonym { name: self.phrases[i].name.clone(), phrase: self.phrases[i].phrase });
            proof {
                assert(phrases@.map_values(|s: Synonym| (s.name@, s.phrase)) =~= prev.map_values(
                    |s: Synonym| (s.name@, s.phrase),
                ).push(self@[i as int]));
                assert(self@.take(i + 1) =~= self@.take(i as int).push(self@[i as int]));
            }
            i = i + 1;
        }
        let res = Custom { phrases };
        assert(self@.take(i as int) =~= self@);
        res
    }

    /// The number of values.
    pub fn len(&self) -> (res: usize)
        ensures
            res == self@.len(),
    {
        self.phrases.len()
    }

    /// The `i`-th value and its phrase.
    pub fn synonym(&self, i: usize) -> (res: &Synonym)
        requires
            i < self@.len(),
        ensures
            (res.name@, res.phrase) == self@[i as int],
    {
        &self.phrases[i]
    }
}

} // verus!
