//! A phrase made of fixed words.
use vstd::prelude::*;
use crate::phrase::result::{no_match, FieldMap, PhraseOutcome, PhraseResult, CONFIDENCE_SCALE};
use crate::text::{lowercase, split, split_seq, to_lowercase, views};

verus! {

/// A fixed sequence of words, compared without regard to case.
pub struct WordPhrase {
    name: String,
    phrase: Vec<String>,
}

/// The words that a word phrase built from `text` compares against: the pieces of
/// `text` between single spaces, lower-cased.
pub open spec fn phrase_words(text: Seq<char>) -> Seq<Seq<char>> {
    split_seq(text, ' ').map_values(|w: Seq<char>| lowercase(w))
}

/// A match of `n` words with full confidence.
pub open spec fn full_match(n: nat) -> PhraseOutcome {
    PhraseOutcome { confidence: CONFIDENCE_SCALE as nat, fields: FieldMap::empty(), length: n }
}

/// Whether the first words of `input`, lower-cased, are exactly `words`.
pub open spec fn words_prefix(words: Seq<Seq<char>>, input: Seq<Seq<char>>) -> bool {
    &&& words.len() <= input.len()
    &&& forall|i: int| 0 <= i < words.len() ==> words[i] == lowercase(#[trigger] input[i])
}

/// Matching fixed words: all of them, or nothing.
pub open spec fn word_outcome(words: Seq<Seq<char>>, input: Seq<Seq<char>>) -> PhraseOutcome {
    if words_prefix(words, input) {
        full_match(words.len())
    } else {
        no_match()
    }
}

impl WordPhrase {
    pub closed spec fn name_view(&self) -> Seq<char> {
        self.name@
    }

    /// The lower-cased words the phrase compares against.
    pub closed spec fn words(&self) -> Seq<Seq<char>> {
        views(self.phrase@)
    }

    /// A phrase named `name` matching the words of `phrase` (split at single spaces).
    pub fn new(name: &String, phrase: String) -> (res: WordPhrase)
        ensures
            res.name_view() == name@,
            res.words() == phrase_words(phrase@),
    {
        let pieces = split(phrase.as_str(), ' ');
        let mut words: Vec<String> = Vec::new();
        let mut i: usize = 0;
        while i < pieces.len()
            invariant
                i <= pieces@.len(),
                views(pieces@) == split_seq(phrase@, ' '),
                views(words@) == phrase_words(phrase@).take(i as int),
            decreases pieces.len() - i,
        {
            let lower = to_lowercase(pieces[i].as_str());
            let ghost prev = words@;
            words.push(lower);
            proof {
                assert(views(pieces@)[i as int] == pieces@[i as int]@);
                assert(views(words@) =~= views(prev).push(lower@));
                assert(phrase_words(phrase@).take(i + 1) =~= phrase_words(phrase@).take(i as int).push(
                    lower@,
                ));
            }
            i = i + 1;
        }
        proof {
            assert(phrase_words(phrase@).take(i as int) =~= phrase_words(phrase@));
        }
        WordPhrase { name: name.clone(), phrase: words }
    }

    /// Matches the phrase against the start of `input`.
    pub fn matches(&self, input: &[String]) -> (res: PhraseResult)
        ensures
            res.wf(),
            res@ == word_outcome(self.words(), views(input@)),
    {
        if self.phrase.len() > input.len() {
            return PhraseResult::new(0, 0);
        }
        let mut i: usize = 0;
        while i < self.phrase.len()
            invariant
                i <= self.phrase@.len() <= input@.len(),
                forall|j: int| 0 <= j < i ==> self.words()[j] == lowercase(#[trigger] views(input@)[j]),
            decreases self.phrase.len() - i,
        {
            let lower = to_lowercase(input[i].as_str());
            if self.phrase[i] != lower {
                proof {
                    assert(self.words()[i as int] != lowercase(views(input@)[i as int]));
                }
                return PhraseResult::new(0, 0);
            }
            i = i + 1;
        }
        PhraseResult::new(CONFIDENCE_SCALE, self.phrase.len())
    }

    pub fn get_name(&self) -> (res: &String)
        ensures
            res@ == self.name_view(),
    {
        &self.name
    }
}

/// Word matching does not see case: inputs whose words lower-case alike match alike.
pub proof fn law_word_case(words: Seq<Seq<char>>, a: Seq<Seq<char>>, b: Seq<Seq<char>>)
    requires
        a.len() == b.len(),
        forall|i: int| 0 <= i < a.len() ==> lowercase(#[trigger] a[i]) == lowercase(b[i]),
    ensures
        word_outcome(words, a) == word_outcome(words, b),
{
    if words_prefix(words, a) {
        assert forall|i: int| 0 <= i < words.len() implies words[i] == lowercase(#[trigger] b[i]) by {
            assert(lowercase(a[i]) == lowercase(b[i]));
        }
    }
    if words_prefix(words, b) {
        assert forall|i: int| 0 <= i < words.len() implies words[i] == lowercase(#[trigger] a[i]) by {
            assert(lowercase(a[i]) == lowercase(b[i]));
        }
    }
}

} // verus!
