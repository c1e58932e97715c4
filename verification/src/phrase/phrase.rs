//! Phrases of every kind, the store that holds them, and how a phrase matches input.
//!
//! Phrases refer to other phrases by their index in a `PhraseStore`; a phrase only
//! refers to phrases stored before it, so matching always terminates.
use vstd::prelude::*;
use crate::field_type::custom::Custom;
use crate::field_type::last_name::{last_name_value, LastName};
use crate::field_type::FieldType;
use crate::phrase::field::{field_outcome, Field};
use crate::phrase::group_phrase::GroupPhrase;
use crate::phrase::meta_phrase::MetaPhrase;
use crate::phrase::result::{
    conf_mul, merged, no_match, score_of, values_of, FieldMap, PhraseOutcome, PhraseResult, CONFIDENCE_SCALE,
};
use crate::phrase::word_phrase::{word_outcome, WordPhrase};
use crate::text::views;

verus! {

/// Any kind of phrase.
pub enum Phrase {
    Word(WordPhrase),
    Group(GroupPhrase),
    Meta(MetaPhrase),
    Field(Field),
}

impl Phrase {
    /// The phrases this one refers to.
    pub open spec fn children(&self) -> Seq<usize> {
        match self {
            Phrase::Word(_) => Seq::empty(),
            Phrase::Group(g) => g.members(),
            Phrase::Meta(m) => m.parts(),
            Phrase::Field(f) => f.kind().phrase_ids(),
        }
    }

    pub open spec fn name_view(&self) -> Seq<char> {
        match self {
            Phrase::Word(w) => w.name_view(),
            Phrase::Group(g) => g.name_view(),
            Phrase::Meta(m) => m.name_view(),
            Phrase::Field(f) => f.name_view(),
        }
    }

    pub fn get_name(&self) -> (res: &String)
        ensures
            res@ == self.name_view(),
    {
        match self {
            Phrase::Word(w) => w.get_name(),
            Phrase::Group(g) => g.get_name(),
            Phrase::Meta(m) => m.get_name(),
            Phrase::Field(f) => f.get_name(),
        }
    }
}

/// Every phrase refers only to phrases stored before it.
pub open spec fn store_wf(s: Seq<Phrase>) -> bool {
    forall|id: int, j: int|
        #![trigger s[id].children()[j]]
        0 <= id < s.len() && 0 <= j < s[id].children().len() ==> s[id].children()[j] < id
}

/// Whether all of `ids` are below `bound`.
pub open spec fn all_below(ids: Seq<usize>, bound: int) -> bool {
    forall|j: int| 0 <= j < ids.len() ==> #[trigger] ids[j] < bound
}

/// The match of phrase `id` of the store `s` against `input`; `None` where matching
/// would slice past the end of the input or overflow a length.
pub open spec fn phrase_outcome(s: Seq<Phrase>, id: int, input: Seq<Seq<char>>) -> Option<PhraseOutcome>
    decreases id, 2int, 0int,
{
    if 0 <= id < s.len() {
        match s[id] {
            Phrase::Word(w) => Some(word_outcome(w.words(), input)),
            Phrase::Group(g) => group_fold(s, g.members(), input, id),
            Phrase::Meta(m) => match meta_fold(s, m.parts(), input, id) {
                Some(state) => Some(state.1),
                None => None,
            },
            Phrase::Field(f) => match field_value(s, f.kind(), input, id) {
                Some(v) => Some(field_outcome(f.name_view(), v)),
                None => None,
            },
        }
    } else {
        None
    }
}

/// The best match among `members` (in order, a later one wins only with a strictly
/// higher score, and a match of no words never wins).
pub open spec fn group_fold(s: Seq<Phrase>, members: Seq<usize>, input: Seq<Seq<char>>, bound: int) -> Option<
    PhraseOutcome,
>
    decreases bound, 1int, members.len(),
{
    if members.len() == 0 {
        Some(no_match())
    } else {
        match group_fold(s, members.drop_last(), input, bound) {
            None => None,
            Some(best) => {
                if 0 <= members.last() < bound {
                    match phrase_outcome(s, members.last() as int, input) {
                        None => None,
                        Some(r) => Some(
                            if r.length != 0 && score_of(r) > score_of(best) {
                                r
                            } else {
                                best
                            },
                        ),
                    }
                } else {
                    None
                }
            },
        }
    }
}

/// The match of a sequence of parts, each matched where the one before it stopped,
/// as a triple: whether a part failed to match (then the whole matches nothing), the
/// chained result so far, and the number of words matched so far, where the next
/// part starts.
pub open spec fn meta_fold(s: Seq<Phrase>, parts: Seq<usize>, input: Seq<Seq<char>>, bound: int) -> Option<
    (bool, PhraseOutcome, nat),
>
    decreases bound, 1int, parts.len(),
{
    if parts.len() == 0 {
        Some(
            (
                false,
                PhraseOutcome { confidence: CONFIDENCE_SCALE as nat, fields: FieldMap::empty(), length: 0 },
                0,
            ),
        )
    } else {
        match meta_fold(s, parts.drop_last(), input, bound) {
            None => None,
            Some(state) => {
                if state.0 {
                    Some(state)
                } else if 0 <= parts.last() < bound {
                    match phrase_outcome(s, parts.last() as int, input.skip(state.2 as int)) {
                        None => None,
                        Some(r) => {
                            if r.length == 0 {
                                Some((true, no_match(), state.2))
                            } else if state.1.length + r.length > usize::MAX || state.2 + r.length > input.len() {
                                None
                            } else {
                                Some((false, merged(state.1, r), state.2 + r.length))
                            }
                        },
                    }
                } else {
                    None
                }
            },
        }
    }
}

/// The value a field type finds at the start of `input`: the value, the number of
/// words it covers and the confidence.
pub open spec fn field_value(s: Seq<Phrase>, t: FieldType, input: Seq<Seq<char>>, bound: int) -> Option<
    (Seq<char>, nat, nat),
>
    decreases bound, 1int, t.phrase_ids().len() + 1,
{
    match t {
        FieldType::LastName(_) => last_name_value(input),
        FieldType::FirstName(_) => last_name_value(input),
        FieldType::Custom(c) => custom_fold(s, c@, input, bound),
    }
}

/// The value of a custom field type: the value whose phrase matches best (in order,
/// a later one wins only with a strictly higher score, and a match of no words never
/// wins); the empty value when none matches.
pub open spec fn custom_fold(s: Seq<Phrase>, syns: Seq<(Seq<char>, usize)>, input: Seq<Seq<char>>, bound: int) -> Option<
    (Seq<char>, nat, nat),
>
    decreases bound, 1int, syns.len(),
{
    if syns.len() == 0 {
        Some((Seq::empty(), 0, 0))
    } else {
        match custom_fold(s, syns.drop_last(), input, bound) {
            None => None,
            Some(best) => {
                if 0 <= syns.last().1 < bound {
                    match phrase_outcome(s, syns.last().1 as int, input) {
                        None => None,
                        Some(r) => Some(
                            if r.length != 0 && score_of(r) > best.1 * best.2 {
                                (syns.last().0, r.length, r.confidence)
                            } else {
                                best
                            },
                        ),
                    }
                } else {
                    None
                }
            },
        }
    }
}

/// `res` is the executable form of `spec`.
pub open spec fn result_is(res: Option<PhraseResult>, spec: Option<PhraseOutcome>) -> bool {
    match res {
        None => spec is None,
        Some(r) => spec == Some(r@) && r.wf() && r@.confidence <= CONFIDENCE_SCALE,
    }
}

/// `res` is the executable form of the field value `spec`.
pub open spec fn value_is(res: Option<(String, usize, u64)>, spec: Option<(Seq<char>, nat, nat)>) -> bool {
    match res {
        None => spec is None,
        Some(v) => spec == Some((v.0@, v.1 as nat, v.2 as nat)) && v.2 <= CONFIDENCE_SCALE,
    }
}

proof fn lemma_group_prefix_none(s: Seq<Phrase>, members: Seq<usize>, k: int, input: Seq<Seq<char>>, bound: int)
    requires
        0 <= k <= members.len(),
        group_fold(s, members.take(k), input, bound) is None,
    ensures
        group_fold(s, members, input, bound) is None,
    decreases members.len(),
{
    if k < members.len() {
        assert(members.drop_last().take(k) == members.take(k));
        lemma_group_prefix_none(s, members.drop_last(), k, input, bound);
    } else {
        assert(members.take(k) == members);
    }
}

proof fn lemma_custom_prefix_none(
    s: Seq<Phrase>,
    syns: Seq<(Seq<char>, usize)>,
    k: int,
    input: Seq<Seq<char>>,
    bound: int,
)
    requires
        0 <= k <= syns.len(),
        custom_fold(s, syns.take(k), input, bound) is None,
    ensures
        custom_fold(s, syns, input, bound) is None,
    decreases syns.len(),
{
    if k < syns.len() {
        assert(syns.drop_last().take(k) == syns.take(k));
        lemma_custom_prefix_none(s, syns.drop_last(), k, input, bound);
    } else {
        assert(syns.take(k) == syns);
    }
}

proof fn lemma_meta_prefix(s: Seq<Phrase>, parts: Seq<usize>, k: int, input: Seq<Seq<char>>, bound: int)
    requires
        0 <= k <= parts.len(),
        meta_fold(s, parts.take(k), input, bound) is None || meta_fold(
            s,
            parts.take(k),
            input,
            bound,
        ).unwrap().0,
    ensures
        meta_fold(s, parts, input, bound) is None ==> meta_fold(s, parts.take(k), input, bound) is None,
        meta_fold(s, parts, input, bound) is Some ==> meta_fold(s, parts, input, bound) == meta_fold(
            s,
            parts.take(k),
            input,
            bound,
        ),
    decreases parts.len(),
{
    if k < parts.len() {
        assert(parts.drop_last().take(k) == parts.take(k));
        lemma_meta_prefix(s, parts.drop_last(), k, input, bound);
    } else {
        assert(parts.take(k) == parts);
    }
}

/// The phrases that can be matched.
pub struct PhraseStore {
    phrases: Vec<Phrase>,
}

impl PhraseStore {
    pub closed spec fn view(&self) -> Seq<Phrase> {
        self.phrases@
    }

    pub open spec fn wf(&self) -> bool {
        store_wf(self@)
    }

    pub fn new() -> (res: PhraseStore)
        ensures
            res.wf(),
            res@ == Seq::<Phrase>::empty(),
    {
        PhraseStore { phrases: Vec::new() }
    }

    pub fn len(&self) -> (res: usize)
        ensures
            res == self@.len(),
    {
        self.phrases.len()
    }

    pub fn get(&self, id: usize) -> (res: &Phrase)
        requires
            id < self@.len(),
        ensures
            *res == self@[id as int],
    {
        &self.phrases[id]
    }

    /// Stores `phrase` and gives back its index.
    pub fn add(&mut self, phrase: Phrase) -> (res: usize)
        requires
            old(self).wf(),
            all_below(phrase.children(), old(self)@.len() as int),
        ensures
            final(self).wf(),
            final(self)@ == old(self)@.push(phrase),
            res == old(self)@.len(),
    {
        let ghost p = phrase;
        let res = self.phrases.len();
        self.phrases.push(phrase);
        proof {
            assert forall|id: int, j: int|
                0 <= id < self@.len() && 0 <= j < self@[id].children().len() implies #[trigger] self@[id].children()[j]
                < id by {
                if id < old(self)@.len() {
                    assert(self@[id] == old(self)@[id]);
                    assert(old(self)@[id].children()[j] < id);
                } else {
                    assert(self@[id] == p);
                }
            }
        }
        res
    }

    /// Matches phrase `id` against `input`; `None` exactly where the match would slice
    /// past the end of the input, take the first letter of an empty word, or overflow
    /// a length.
    pub fn try_matches(&self, id: usize, input: &[String]) -> (res: Option<PhraseResult>)
        requires
            self.wf(),
            id < self@.len(),
        ensures
            result_is(res, phrase_outcome(self@, id as int, views(input@))),
        decreases id, 2int, 0int,
    {
        match &self.phrases[id] {
            Phrase::Word(w) => Some(w.matches(input)),
            Phrase::Group(g) => {
                proof {
                    assert forall|j: int| 0 <= j < g.members().len() implies #[trigger] g.members()[j] < id by {
                        assert(self@[id as int].children()[j] < id);
                    }
                }
                self.match_group(g.members_ref(), input, id)
            },
            Phrase::Meta(m) => {
                proof {
                    assert forall|j: int| 0 <= j < m.parts().len() implies #[trigger] m.parts()[j] < id by {
                        assert(self@[id as int].children()[j] < id);
                    }
                }
                let r = self.match_meta(m.parts_ref(), input, id);
                match r {
                    Some(state) => Some(state.0),
                    None => None,
                }
            },
            Phrase::Field(f) => {
                let value = match f.field_type() {
                    FieldType::LastName(ln) => {
                        if input.len() > 0 && input[0].as_str().is_empty() {
                            assert(views(input@)[0] == input@[0]@);
                            None
                        } else {
                            proof {
                                if input@.len() > 0 {
                                    assert(views(input@)[0] == input@[0]@);
                                }
                            }
                            let v = ln.get_value(input);
                            Some(v)
                        }
                    },
                    FieldType::FirstName(fnm) => {
                        if input.len() > 0 && input[0].as_str().is_empty() {
                            assert(views(input@)[0] == input@[0]@);
                            None
                        } else {
                            proof {
                                if input@.len() > 0 {
                                    assert(views(input@)[0] == input@[0]@);
                                }
                            }
                            let v = fnm.get_value(input);
                            Some(v)
                        }
                    },
                    FieldType::Custom(c) => {
                        proof {
                            assert forall|j: int| 0 <= j < c@.len() implies #[trigger] c@[j].1 < id by {
                                assert(f.kind().phrase_ids()[j] == c@[j].1);
                                assert(self@[id as int].children()[j] < id);
                            }
                        }
                        self.custom_value(c, input, id)
                    },
                };
                match value {
                    Some(v) => Some(f.result_from(v)),
                    None => None,
                }
            },
        }
    }

    /// Matches `input` against each of `members` and keeps the best match.
    fn match_group(&self, members: &Vec<usize>, input: &[String], bound: usize) -> (res: Option<PhraseResult>)
        requires
            self.wf(),
            bound <= self@.len(),
            forall|j: int| 0 <= j < members@.len() ==> #[trigger] members@[j] < bound,
        ensures
            result_is(res, group_fold(self@, members@, views(input@), bound as int)),
        decreases bound, 1int, members@.len(),
    {
        let ghost inp = views(input@);
        let mut result = PhraseResult::new(0, 0);
        let mut i: usize = 0;
        proof {
            assert(members@.take(0) =~= Seq::<usize>::empty());
        }
        while i < members.len()
            invariant
                i <= members@.len(),
                self.wf(),
                bound <= self@.len(),
                forall|j: int| 0 <= j < members@.len() ==> #[trigger] members@[j] < bound,
                inp == views(input@),
                group_fold(self@, members@.take(i as int), inp, bound as int) == Some(result@),
                result.wf(),
                result@.confidence <= CONFIDENCE_SCALE,
            decreases members.len() - i,
        {
            proof {
                assert(members@.take(i + 1).drop_last() == members@.take(i as int));
                assert(members@.take(i + 1).last() == members@[i as int]);
            }
            let r = self.try_matches(members[i], input);
            match r {
                None => {
                    proof {
                        lemma_group_prefix_none(self@, members@, i + 1, inp, bound as int);
                    }
                    return None;
                },
                Some(r) => {
                    if r.len() != 0 && r.get_score() > result.get_score() {
                        result = r;
                    }
                },
            }
            i = i + 1;
        }
        proof {
            assert(members@.take(i as int) == members@);
        }
        Some(result)
    }

    /// Matches the parts in turn; gives back the chained result and where the next
    /// part would start.
    fn match_meta(&self, parts: &Vec<usize>, input: &[String], bound: usize) -> (res: Option<(PhraseResult, usize)>)
        requires
            self.wf(),
            bound <= self@.len(),
            forall|j: int| 0 <= j < parts@.len() ==> #[trigger] parts@[j] < bound,
        ensures
            match res {
                None => meta_fold(self@, parts@, views(input@), bound as int) is None,
                Some(r) => meta_fold(self@, parts@, views(input@), bound as int) matches Some(state)
                    && state.1 == r.0@ && r.0.wf() && r.0@.confidence <= CONFIDENCE_SCALE,
            },
        decreases bound, 1int, parts@.len(),
    {
        let ghost inp = views(input@);
        let mut result = PhraseResult::new(CONFIDENCE_SCALE, 0);
        let mut start: usize = 0;
        let mut i: usize = 0;
        proof {
            assert(parts@.take(0) =~= Seq::<usize>::empty());
            assert(result@ =~= PhraseOutcome {
                confidence: CONFIDENCE_SCALE as nat,
                fields: FieldMap::empty(),
                length: 0,
            });
        }
        while i < parts.len()
            invariant
                i <= parts@.len(),
                self.wf(),
                bound <= self@.len(),
                forall|j: int| 0 <= j < parts@.len() ==> #[trigger] parts@[j] < bound,
                inp == views(input@),
                meta_fold(self@, parts@.take(i as int), inp, bound as int) == Some((false, result@, start as nat)),
                start <= input@.len(),
                result.wf(),
                result@.confidence <= CONFIDENCE_SCALE,
            decreases parts.len() - i,
        {
            proof {
                assert(parts@.take(i + 1).drop_last() == parts@.take(i as int));
                assert(parts@.take(i + 1).last() == parts@[i as int]);
            }
            let next = vstd::slice::slice_subrange(input, start, input.len());
            proof {
                assert(views(next@) =~= inp.skip(start as int));
            }
            let r = self.try_matches(parts[i], next);
            match r {
                None => {
                    proof {
                        lemma_meta_prefix(self@, parts@, i + 1, inp, bound as int);
                    }
                    return None;
                },
                Some(r) => {
                    if r.len() == 0 {
                        proof {
                            lemma_meta_prefix(self@, parts@, i + 1, inp, bound as int);
                        }
                        return Some((PhraseResult::new(0, 0), start));
                    }
                    if result.len() > usize::MAX - r.len() || r.len() > input.len() - start {
                        proof {
                            lemma_meta_prefix(self@, parts@, i + 1, inp, bound as int);
                        }
                        return None;
                    }
                    proof {
                        assert(result@.confidence * r@.confidence <= CONFIDENCE_SCALE * CONFIDENCE_SCALE)
                            by (nonlinear_arith)
                            requires
                                result@.confidence <= CONFIDENCE_SCALE,
                                r@.confidence <= CONFIDENCE_SCALE,
                        ;
                        assert(conf_mul(result@.confidence as int, r@.confidence as int) <= CONFIDENCE_SCALE);
                    }
                    result.merge(&r);
                    start = start + r.len();
                },
            }
            i = i + 1;
        }
        proof {
            assert(parts@.take(i as int) == parts@);
        }
        Some((result, start))
    }

    /// The value of a custom field type at the start of `input`.
    fn custom_value(&self, c: &Custom, input: &[String], bound: usize) -> (res: Option<(String, usize, u64)>)
        requires
            self.wf(),
            bound <= self@.len(),
            forall|j: int| 0 <= j < c@.len() ==> #[trigger] c@[j].1 < bound,
        ensures
            value_is(res, custom_fold(self@, c@, views(input@), bound as int)),
        decreases bound, 1int, c@.len(),
    {
        let ghost inp = views(input@);
        let mut best: (String, usize, u64) = (String::new(), 0, 0);
        let mut i: usize = 0;
        proof {
            assert(c@.take(0) =~= Seq::<(Seq<char>, usize)>::empty());
        }
        while i < c.len()
            invariant
                i <= c@.len(),
                self.wf(),
                bound <= self@.len(),
                forall|j: int| 0 <= j < c@.len() ==> #[trigger] c@[j].1 < bound,
                inp == views(input@),
                custom_fold(self@, c@.take(i as int), inp, bound as int) == Some(
                    (best.0@, best.1 as nat, best.2 as nat),
                ),
                best.2 <= CONFIDENCE_SCALE,
            decreases c@.len() - i,
        {
            proof {
                assert(c@.take(i + 1).drop_last() == c@.take(i as int));
                assert(c@.take(i + 1).last() == c@[i as int]);
            }
            let syn = c.synonym(i);
            assert(syn.phrase == c@[i as int].1);
            assert(c@[i as int].1 < bound);
            let r = self.try_matches(syn.phrase, input);
            match r {
                None => {
                    proof {
                        lemma_custom_prefix_none(self@, c@, i + 1, inp, bound as int);
                    }
                    return None;
                },
                Some(r) => {
                    proof {
                        assert(best.1 as int * best.2 as int <= u64::MAX as int * u64::MAX as int)
                            by (nonlinear_arith)
                            requires
                                best.1 <= u64::MAX,
                                best.2 <= u64::MAX,
                        ;
                        assert(u64::MAX as int * u64::MAX as int <= u128::MAX) by (nonlinear_arith);
                    }
                    let best_score: u128 = (best.1 as u128) * (best.2 as u128);
                    if r.len() != 0 && r.get_score() > best_score {
                        best = (syn.name.clone(), r.len(), r.get_confidence());
                    }
                },
            }
            i = i + 1;
        }
        proof {
            assert(c@.take(i as int) == c@);
        }
        Some(best)
    }
}

impl GroupPhrase {
    /// The best match among the alternatives.
    pub fn matches(&self, store: &PhraseStore, input: &[String]) -> (res: PhraseResult)
        requires
            store.wf(),
            all_below(self.members(), store@.len() as int),
            group_fold(store@, self.members(), views(input@), store@.len() as int) is Some,
        ensures
            res.wf(),
            group_fold(store@, self.members(), views(input@), store@.len() as int) == Some(res@),
    {
        match store.match_group(self.members_ref(), input, store.len()) {
            Some(r) => r,
            None => PhraseResult::new(0, 0),
        }
    }
}

impl MetaPhrase {
    /// The parts matched one after the other.
    pub fn matches(&self, store: &PhraseStore, input: &[String]) -> (res: PhraseResult)
        requires
            store.wf(),
            all_below(self.parts(), store@.len() as int),
            meta_fold(store@, self.parts(), views(input@), store@.len() as int) is Some,
        ensures
            res.wf(),
            meta_fold(store@, self.parts(), views(input@), store@.len() as int).unwrap().1 == res@,
    {
        match store.match_meta(self.parts_ref(), input, store.len()) {
            Some(r) => r.0,
            None => PhraseResult::new(0, 0),
        }
    }
}

impl Custom {
    /// The value whose phrase matches the start of `input` best, with the number of
    /// words covered and the confidence.
    pub fn get_value(&self, store: &PhraseStore, input: &[String]) -> (res: (String, usize, u64))
        requires
            store.wf(),
            forall|j: int| 0 <= j < self@.len() ==> #[trigger] self@[j].1 < store@.len(),
            custom_fold(store@, self@, views(input@), store@.len() as int) is Some,
        ensures
            custom_fold(store@, self@, views(input@), store@.len() as int) == Some(
                (res.0@, res.1 as nat, res.2 as nat),
            ),
    {
        match store.custom_value(self, input, store.len()) {
            Some(v) => v,
            None => (String::new(), 0, 0),
        }
    }
}

impl Field {
    /// The field's value at the start of `input`, recorded under the field's name.
    pub fn matches(&self, store: &PhraseStore, input: &[String]) -> (res: PhraseResult)
        requires
            store.wf(),
            all_below(self.kind().phrase_ids(), store@.len() as int),
            field_value(store@, self.kind(), views(input@), store@.len() as int) is Some,
        ensures
            res.wf(),
            res@ == field_outcome(
                self.name_view(),
                field_value(store@, self.kind(), views(input@), store@.len() as int).unwrap(),
            ),
    {
        let value = match self.field_type() {
            FieldType::LastName(ln) => ln.get_value(input),
            FieldType::FirstName(fnm) => fnm.get_value(input),
            FieldType::Custom(c) => {
                proof {
                    assert forall|j: int| 0 <= j < c@.len() implies #[trigger] c@[j].1 < store@.len() by {
                        assert(self.kind().phrase_ids()[j] == c@[j].1);
                    }
                }
                c.get_value(store, input)
            },
        };
        self.result_from(value)
    }
}

/// A group matches as well as the best of its members: its match scores at least as
/// well as every member's match that covers some words, and it is the match of one
/// of its members, covering some words, or else the match of nothing.
pub proof fn law_group_best(s: Seq<Phrase>, members: Seq<usize>, input: Seq<Seq<char>>, bound: int)
    requires
        group_fold(s, members, input, bound) is Some,
    ensures
        forall|i: int|
            #![trigger members[i]]
            0 <= i < members.len() ==> phrase_outcome(s, members[i] as int, input) is Some && (phrase_outcome(
                s,
                members[i] as int,
                input,
            ).unwrap().length != 0 ==> score_of(phrase_outcome(s, members[i] as int, input).unwrap()) <= score_of(
                group_fold(s, members, input, bound).unwrap(),
            )),
        group_fold(s, members, input, bound).unwrap() == no_match() || exists|i: int|
            0 <= i < members.len() && phrase_outcome(s, #[trigger] members[i] as int, input) == Some(
                group_fold(s, members, input, bound).unwrap(),
            ) && group_fold(s, members, input, bound).unwrap().length != 0 && forall|j: int|
                0 <= j < i && phrase_outcome(s, #[trigger] members[j] as int, input).unwrap().length != 0
                    ==> score_of(phrase_outcome(s, members[j] as int, input).unwrap()) < score_of(
                    group_fold(s, members, input, bound).unwrap(),
                ),
    decreases members.len(),
{
    if members.len() > 0 {
        let prev = members.drop_last();
        law_group_best(s, prev, input, bound);
        assert forall|i: int| 0 <= i < prev.len() implies prev[i] == members[i] by {}
        let o = group_fold(s, members, input, bound).unwrap();
        let best = group_fold(s, prev, input, bound).unwrap();
        let r = phrase_outcome(s, members.last() as int, input).unwrap();
        assert(members[members.len() - 1] == members.last());
        assert forall|i: int|
            #![trigger members[i]]
            0 <= i < members.len() implies phrase_outcome(s, members[i] as int, input) is Some && (phrase_outcome(
                s,
                members[i] as int,
                input,
            ).unwrap().length != 0 ==> score_of(phrase_outcome(s, members[i] as int, input).unwrap()) <= score_of(o)) by {
            if i < prev.len() {
                assert(prev[i] == members[i]);
            }
        }
        if o != no_match() {
            if o == r && r.length != 0 && score_of(r) > score_of(best) {
                assert(phrase_outcome(s, members[members.len() - 1] as int, input) == Some(o));
                assert forall|j: int|
                    0 <= j < members.len() - 1 && phrase_outcome(s, #[trigger] members[j] as int, input).unwrap().length
                        != 0 implies score_of(phrase_outcome(s, members[j] as int, input).unwrap()) < score_of(o) by {
                    assert(prev[j] == members[j]);
                }
            } else {
                let i = choose|i: int|
                    0 <= i < prev.len() && phrase_outcome(s, #[trigger] prev[i] as int, input) == Some(best)
                        && best.length != 0 && forall|j: int|
                        0 <= j < i && phrase_outcome(s, #[trigger] prev[j] as int, input).unwrap().length != 0
                            ==> score_of(phrase_outcome(s, prev[j] as int, input).unwrap()) < score_of(best);
                assert(members[i] == prev[i]);
                assert forall|j: int|
                    0 <= j < i && phrase_outcome(s, #[trigger] members[j] as int, input).unwrap().length != 0 implies score_of(
                        phrase_outcome(s, members[j] as int, input).unwrap(),
                    ) < score_of(o) by {
                    assert(prev[j] == members[j]);
                }
            }
        }
    }
}

/// The value of a custom field type comes from one of its synonyms: it is the value
/// of a synonym whose phrase matches the start of the input, covering exactly the
/// words and with exactly the confidence of that match, or else the empty value of no
/// words; and no synonym's phrase, where it covers some words, matches with a higher
/// score (length times confidence).
pub proof fn law_custom_value(s: Seq<Phrase>, syns: Seq<(Seq<char>, usize)>, input: Seq<Seq<char>>, bound: int)
    requires
        custom_fold(s, syns, input, bound) is Some,
    ensures
        ({
            let v = custom_fold(s, syns, input, bound).unwrap();
            &&& v == (Seq::<char>::empty(), 0nat, 0nat) || exists|k: int|
                0 <= k < syns.len() && (#[trigger] syns[k]).0 == v.0 && phrase_outcome(s, syns[k].1 as int, input)
                    is Some && phrase_outcome(s, syns[k].1 as int, input).unwrap().length == v.1
                    && phrase_outcome(s, syns[k].1 as int, input).unwrap().confidence == v.2 && v.1 != 0 && forall|j: int|
                    0 <= j < k && phrase_outcome(s, (#[trigger] syns[j]).1 as int, input).unwrap().length != 0
                        ==> score_of(phrase_outcome(s, syns[j].1 as int, input).unwrap()) < v.1 * v.2
            &&& forall|k: int|
                #![trigger syns[k]]
                0 <= k < syns.len() ==> phrase_outcome(s, syns[k].1 as int, input) is Some && (phrase_outcome(
                    s,
                    syns[k].1 as int,
                    input,
                ).unwrap().length != 0 ==> score_of(phrase_outcome(s, syns[k].1 as int, input).unwrap()) <= v.1 * v.2)
        }),
    decreases syns.len(),
{
    if syns.len() > 0 {
        let prev = syns.drop_last();
        law_custom_value(s, prev, input, bound);
        assert forall|k: int| 0 <= k < prev.len() implies prev[k] == syns[k] by {}
        let v = custom_fold(s, syns, input, bound).unwrap();
        let best = custom_fold(s, prev, input, bound).unwrap();
        let r = phrase_outcome(s, syns.last().1 as int, input).unwrap();
        let n = syns.len() - 1;
        assert(syns[n] == syns.last());
        assert forall|k: int|
            #![trigger syns[k]]
            0 <= k < syns.len() implies phrase_outcome(s, syns[k].1 as int, input) is Some && (phrase_outcome(
                s,
                syns[k].1 as int,
                input,
            ).unwrap().length != 0 ==> score_of(phrase_outcome(s, syns[k].1 as int, input).unwrap()) <= v.1 * v.2) by {
            if k < prev.len() {
                assert(prev[k] == syns[k]);
            }
        }
        if r.length != 0 && score_of(r) > best.1 * best.2 {
            assert(v == (syns.last().0, r.length, r.confidence));
            assert(syns[n].0 == v.0);
            assert(score_of(r) == v.1 * v.2);
            assert forall|j: int|
                0 <= j < n && phrase_outcome(s, (#[trigger] syns[j]).1 as int, input).unwrap().length != 0 implies score_of(
                    phrase_outcome(s, syns[j].1 as int, input).unwrap(),
                ) < v.1 * v.2 by {
                assert(prev[j] == syns[j]);
            }
        } else if v != (Seq::<char>::empty(), 0nat, 0nat) {
            let k = choose|k: int|
                0 <= k < prev.len() && (#[trigger] prev[k]).0 == best.0 && phrase_outcome(s, prev[k].1 as int, input)
                    is Some && phrase_outcome(s, prev[k].1 as int, input).unwrap().length == best.1
                    && phrase_outcome(s, prev[k].1 as int, input).unwrap().confidence == best.2 && best.1 != 0
                    && forall|j: int|
                    0 <= j < k && phrase_outcome(s, (#[trigger] prev[j]).1 as int, input).unwrap().length != 0
                        ==> score_of(phrase_outcome(s, prev[j].1 as int, input).unwrap()) < best.1 * best.2;
            assert(syns[k] == prev[k]);
            assert forall|j: int|
                0 <= j < k && phrase_outcome(s, (#[trigger] syns[j]).1 as int, input).unwrap().length != 0 implies score_of(
                    phrase_outcome(s, syns[j].1 as int, input).unwrap(),
                ) < v.1 * v.2 by {
                assert(prev[j] == syns[j]);
            }
        }
    }
}

/// Matching one more part of a sequence phrase, where the parts before it matched
/// and it matches too, starts it where they stopped and adds what it matched: its
/// words to the length and to where the next part starts, and its field values
/// after those collected so far, for every field name (no field of either is lost).
pub proof fn law_meta_collects_fields(
    s: Seq<Phrase>,
    parts: Seq<usize>,
    q: usize,
    input: Seq<Seq<char>>,
    bound: int,
)
    requires
        meta_fold(s, parts, input, bound) is Some,
        !meta_fold(s, parts, input, bound).unwrap().0,
        meta_fold(s, parts.push(q), input, bound) is Some,
        !meta_fold(s, parts.push(q), input, bound).unwrap().0,
    ensures
        ({
            let a = meta_fold(s, parts, input, bound).unwrap();
            let b = meta_fold(s, parts.push(q), input, bound).unwrap();
            &&& phrase_outcome(s, q as int, input.skip(a.2 as int)) is Some
            &&& {
                let r = phrase_outcome(s, q as int, input.skip(a.2 as int)).unwrap();
                &&& r.length != 0
                &&& b.2 == a.2 + r.length
                &&& b.1.length == a.1.length + r.length
                &&& b.1.confidence == (a.1.confidence * r.confidence) / (CONFIDENCE_SCALE as nat)
                &&& forall|k: Seq<char>|
                    #[trigger] values_of(b.1.fields, k) == values_of(a.1.fields, k) + values_of(r.fields, k)
                &&& forall|k: Seq<char>|
                    #[trigger] b.1.fields.contains_key(k) <==> a.1.fields.contains_key(k) || r.fields.contains_key(k)
            }
        }),
{
    assert(parts.push(q).drop_last() =~= parts);
    assert(parts.push(q).last() == q);
}

/// A sequence phrase fails as a whole as soon as one part, started where the parts
/// before it stopped, matches no words: the match is then the match of nothing,
/// whatever the later parts are.
pub proof fn law_meta_stops(s: Seq<Phrase>, parts: Seq<usize>, q: usize, input: Seq<Seq<char>>, bound: int)
    requires
        meta_fold(s, parts, input, bound) is Some,
        !meta_fold(s, parts, input, bound).unwrap().0,
        0 <= q < bound,
        phrase_outcome(s, q as int, input.skip(meta_fold(s, parts, input, bound).unwrap().2 as int)) is Some,
        phrase_outcome(s, q as int, input.skip(meta_fold(s, parts, input, bound).unwrap().2 as int)).unwrap().length
            == 0,
    ensures
        meta_fold(s, parts.push(q), input, bound) is Some,
        meta_fold(s, parts.push(q), input, bound).unwrap().0,
        meta_fold(s, parts.push(q), input, bound).unwrap().1 == no_match(),
        forall|more: Seq<usize>|
            meta_fold(s, #[trigger] (parts.push(q) + more), input, bound) == meta_fold(s, parts.push(q), input, bound)
                || meta_fold(s, parts.push(q) + more, input, bound) is None,
{
    assert(parts.push(q).drop_last() =~= parts);
    assert(parts.push(q).last() == q);
    assert forall|more: Seq<usize>|
        meta_fold(s, #[trigger] (parts.push(q) + more), input, bound) == meta_fold(s, parts.push(q), input, bound)
            || meta_fold(s, parts.push(q) + more, input, bound) is None by {
        lemma_meta_failed_stays(s, parts.push(q), more, input, bound);
    }
}

proof fn lemma_meta_failed_stays(s: Seq<Phrase>, pre: Seq<usize>, more: Seq<usize>, input: Seq<Seq<char>>, bound: int)
    requires
        meta_fold(s, pre, input, bound) is Some,
        meta_fold(s, pre, input, bound).unwrap().0,
    ensures
        meta_fold(s, pre + more, input, bound) == meta_fold(s, pre, input, bound),
    decreases more.len(),
{
    if more.len() == 0 {
        assert(pre + more =~= pre);
    } else {
        lemma_meta_failed_stays(s, pre, more.drop_last(), input, bound);
        assert((pre + more).drop_last() =~= pre + more.drop_last());
    }
}

} // verus!
