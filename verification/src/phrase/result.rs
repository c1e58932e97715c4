//! The outcome of matching a phrase against some input words: how sure the match
//! is, how many words it covered, and which field values it collected.
use vstd::prelude::*;
use crate::text::views;

verus! {

/// Confidence is a fixed-point number: `CONFIDENCE_SCALE` stands for full certainty.
pub const CONFIDENCE_SCALE: u64 = 1_000_000u64;

/// Fixed-point product of two confidences.
pub open spec fn conf_mul(a: int, b: int) -> int {
    (a * b) / (CONFIDENCE_SCALE as int)
}

/// The values collected for each field name.
pub type FieldMap = Map<Seq<char>, Seq<Seq<char>>>;

/// The values stored for `k`, or none.
pub open spec fn values_of(m: FieldMap, k: Seq<char>) -> Seq<Seq<char>> {
    if m.contains_key(k) {
        m[k]
    } else {
        Seq::empty()
    }
}

/// `m` with `vals` appended to the values of `k`.
pub open spec fn add_to(m: FieldMap, k: Seq<char>, vals: Seq<Seq<char>>) -> FieldMap {
    m.insert(k, values_of(m, k) + vals)
}

/// Two field maps together: every name of either, with the values of `a` followed
/// by those of `b`.
pub open spec fn combine(a: FieldMap, b: FieldMap) -> FieldMap {
    Map::new(|k: Seq<char>| a.contains_key(k) || b.contains_key(k), |k: Seq<char>| values_of(a, k) + values_of(b, k))
}

/// One field name with the values collected for it.
pub struct FieldEntry {
    pub name: String,
    pub values: Vec<String>,
}

impl FieldEntry {
    pub open spec fn pair(&self) -> (Seq<char>, Seq<Seq<char>>) {
        (self.name@, views(self.values@))
    }
}

/// The map described by a list of name/values pairs (a later pair wins).
pub open spec fn map_of(l: Seq<(Seq<char>, Seq<Seq<char>>)>) -> FieldMap
    decreases l.len(),
{
    if l.len() == 0 {
        Map::empty()
    } else {
        map_of(l.drop_last()).insert(l.last().0, l.last().1)
    }
}

/// No name occurs twice in the list.
pub open spec fn distinct_names(l: Seq<(Seq<char>, Seq<Seq<char>>)>) -> bool {
    forall|i: int, j: int| 0 <= i < j < l.len() ==> l[i].0 != l[j].0
}

pub proof fn lemma_map_of_contains(l: Seq<(Seq<char>, Seq<Seq<char>>)>, k: Seq<char>)
    ensures
        map_of(l).contains_key(k) <==> exists|i: int| 0 <= i < l.len() && l[i].0 == k,
    decreases l.len(),
{
    if l.len() > 0 {
        lemma_map_of_contains(l.drop_last(), k);
        if map_of(l).contains_key(k) && l.last().0 != k {
            let i = choose|i: int| 0 <= i < l.len() - 1 && l.drop_last()[i].0 == k;
            assert(l[i].0 == k);
        }
        if exists|i: int| 0 <= i < l.len() && l[i].0 == k {
            let i = choose|i: int| 0 <= i < l.len() && l[i].0 == k;
            if i < l.len() - 1 {
                assert(l.drop_last()[i].0 == k);
            }
        }
    }
}

pub proof fn lemma_map_of_index(l: Seq<(Seq<char>, Seq<Seq<char>>)>, i: int)
    requires
        distinct_names(l),
        0 <= i < l.len(),
    ensures
        map_of(l).contains_key(l[i].0),
        map_of(l)[l[i].0] == l[i].1,
    decreases l.len(),
{
    if i < l.len() - 1 {
        lemma_map_of_index(l.drop_last(), i);
    }
}

pub proof fn lemma_map_of_update(l: Seq<(Seq<char>, Seq<Seq<char>>)>, i: int, v: Seq<Seq<char>>)
    requires
        distinct_names(l),
        0 <= i < l.len(),
    ensures
        map_of(l.update(i, (l[i].0, v))) == map_of(l).insert(l[i].0, v),
    decreases l.len(),
{
    let k = l[i].0;
    if i == l.len() - 1 {
        assert(l.update(i, (k, v)).drop_last() == l.drop_last());
        lemma_map_of_contains(l.drop_last(), k);
        assert(map_of(l.drop_last()).insert(k, v) =~= map_of(l).insert(k, v));
    } else {
        assert(l.update(i, (k, v)).drop_last() == l.drop_last().update(i, (k, v)));
        lemma_map_of_update(l.drop_last(), i, v);
        assert(map_of(l.update(i, (k, v))) =~= map_of(l).insert(k, v));
    }
}

/// The values collected for each field, in the order the names first appeared.
pub struct FieldValues {
    entries: Vec<FieldEntry>,
}

impl FieldValues {
    pub closed spec fn pairs(&self) -> Seq<(Seq<char>, Seq<Seq<char>>)> {
        self.entries@.map_values(|e: FieldEntry| e.pair())
    }

    /// The field values as a map from field name to values.
    pub closed spec fn view(&self) -> FieldMap {
        map_of(self.pairs())
    }

    pub closed spec fn wf(&self) -> bool {
        distinct_names(self.pairs())
    }

    pub fn new() -> (res: FieldValues)
        ensures
            res.wf(),
            res.view() == FieldMap::empty(),
    {
        let res = FieldValues { entries: Vec::new() };
        assert(res.pairs() =~= Seq::empty());
        res
    }

    /// The number of field names held.
    pub fn len(&self) -> (res: usize)
        requires
            self.wf(),
        ensures
            res == self.view().dom().len(),
    {
        proof {
            self.lemma_dom_len();
        }
        self.entries.len()
    }

    proof fn lemma_dom_len(&self)
        requires
            self.wf(),
        ensures
            self.view().dom().finite(),
            self.view().dom().len() == self.entries@.len(),
    {
        lemma_distinct_dom_len(self.pairs());
    }

    /// The name and values of the `i`-th field held.
    pub fn entry(&self, i: usize) -> (res: (&String, &Vec<String>))
        requires
            self.wf(),
            i < self.view().dom().len(),
        ensures
            self.view().contains_key(res.0@),
            self.view()[res.0@] == views(res.1@),
    {
        proof {
            self.lemma_dom_len();
            lemma_map_of_index(self.pairs(), i as int);
        }
        let e = &self.entries[i];
        (&e.name, &e.values)
    }

    /// Finds where `name` is stored.
    fn find(&self, name: &String) -> (res: Option<usize>)
        requires
            self.wf(),
        ensures
            res is None ==> !self.view().contains_key(name@),
            res matches Some(i) ==> i < self.entries@.len() && self.pairs()[i as int].0 == name@,
    {
        let mut i: usize = 0;
        while i < self.entries.len()
            invariant
                i <= self.entries@.len(),
                forall|j: int| 0 <= j < i ==> self.pairs()[j].0 != name@,
            decreases self.entries.len() - i,
        {
            if self.entries[i].name == *name {
                return Some(i);
            }
            i = i + 1;
        }
        proof {
            lemma_map_of_contains(self.pairs(), name@);
        }
        None
    }

    /// Appends `values` to those stored for `name`.
    pub fn add_values(&mut self, name: &String, values: &Vec<String>)
        requires
            old(self).wf(),
        ensures
            final(self).wf(),
            final(self).view() == add_to(old(self).view(), name@, views(values@)),
    {
        let copies = clone_strings(values);
        match self.find(name) {
            Some(i) => {
                let ghost old_pairs = self.pairs();
                let mut entry = self.entries.remove(i);
                let ghost before = views(entry.values@);
                let mut j: usize = 0;
                while j < copies.len()
                    invariant
                        j <= copies@.len(),
                        views(entry.values@) == before + views(copies@).take(j as int),
                        entry.name@ == name@,
                    decreases copies.len() - j,
                {
                    let ghost prev_values = entry.values@;
                    entry.values.push(copies[j].clone());
                    proof {
                        assert(views(entry.values@) =~= views(prev_values).push(copies@[j as int]@));
                        assert(views(copies@).take(j + 1) == views(copies@).take(j as int).push(copies@[j as int]@));
                        assert(views(entry.values@) =~= before + views(copies@).take(j + 1));
                    }
                    j = j + 1;
                }
                self.entries.insert(i, entry);
                proof {
                    assert(views(copies@).take(copies@.len() as int) == views(copies@));
                    assert(self.pairs() =~= old_pairs.update(i as int, (name@, before + views(values@))));
                    lemma_map_of_index(old_pairs, i as int);
                    lemma_map_of_update(old_pairs, i as int, before + views(values@));
                    assert(distinct_names(self.pairs()));
                }
            },
            None => {
                let ghost old_pairs = self.pairs();
                self.entries.push(FieldEntry { name: name.clone(), values: copies });
                proof {
                    assert(self.pairs() =~= old_pairs.push((name@, views(values@))));
                    assert(self.pairs().drop_last() == old_pairs);
                    lemma_map_of_contains(old_pairs, name@);
                }
            },
        }
    }

    /// Adds every field of `other` (see `combine`).
    pub fn add_all(&mut self, other: &FieldValues)
        requires
            old(self).wf(),
            other.wf(),
        ensures
            final(self).wf(),
            final(self).view() == combine(old(self).view(), other.view()),
    {
        let ghost start = self.view();
        let mut i: usize = 0;
        while i < other.entries.len()
            invariant
                i <= other.entries@.len(),
                other.wf(),
                self.wf(),
                self.view() == combine(start, map_of(other.pairs().take(i as int))),
            decreases other.entries.len() - i,
        {
            let e = &other.entries[i];
            let ghost prev = map_of(other.pairs().take(i as int));
            self.add_values(&e.name, &e.values);
            proof {
                let l = other.pairs().take(i + 1);
                assert(l.drop_last() == other.pairs().take(i as int));
                assert(l.last() == (e.name@, views(e.values@)));
                lemma_map_of_contains(other.pairs().take(i as int), e.name@);
                if prev.contains_key(e.name@) {
                    let j = choose|j: int| 0 <= j < i && other.pairs().take(i as int)[j].0 == e.name@;
                    assert(other.pairs()[j].0 == other.pairs()[i as int].0);
                }
                assert(self.view() =~= combine(start, map_of(l)));
            }
            i = i + 1;
        }
        proof {
            assert(other.pairs().take(other.entries@.len() as int) == other.pairs());
        }
    }

    pub fn clone(&self) -> (res: FieldValues)
        requires
            self.wf(),
        ensures
            res.wf(),
            res.view() == self.view(),
    {
        let mut res = FieldValues::new();
        res.add_all(self);
        proof {
            assert(combine(FieldMap::empty(), self.view()) =~= self.view());
        }
        res
    }
}

pub proof fn lemma_distinct_dom_len(l: Seq<(Seq<char>, Seq<Seq<char>>)>)
    requires
        distinct_names(l),
    ensures
        map_of(l).dom().finite(),
        map_of(l).dom().len() == l.len(),
    decreases l.len(),
{
    if l.len() > 0 {
        lemma_distinct_dom_len(l.drop_last());
        lemma_map_of_contains(l.drop_last(), l.last().0);
    }
}

/// Copies of the strings, one by one.
pub fn clone_strings(v: &Vec<String>) -> (res: Vec<String>)
    ensures
        res@ == v@,
{
    let mut res: Vec<String> = Vec::new();
    let mut i: usize = 0;
    while i < v.len()
        invariant
            i <= v@.len(),
            res@ == v@.take(i as int),
        decreases v.len() - i,
    {
        res.push(v[i].clone());
        proof {
            assert(v@.take(i + 1) == v@.take(i as int).push(v@[i as int]));
        }
        i = i + 1;
    }
    proof {
        assert(v@.take(v@.len() as int) == v@);
    }
    res
}

/// The view of a phrase match: confidence, collected fields and covered length.
pub struct PhraseOutcome {
    pub confidence: nat,
    pub fields: FieldMap,
    pub length: nat,
}

/// A match that covers nothing.
pub open spec fn no_match() -> PhraseOutcome {
    PhraseOutcome { confidence: 0, fields: FieldMap::empty(), length: 0 }
}

/// How good a match is: its length weighted by its confidence.
pub open spec fn score_of(o: PhraseOutcome) -> nat {
    o.length * o.confidence
}

/// The result of matching a phrase against input words.
pub struct PhraseResult {
    confidence: u64,
    fields: FieldValues,
    length: usize,
}

impl PhraseResult {
    pub closed spec fn wf(&self) -> bool {
        self.fields.wf()
    }

    pub closed spec fn view(&self) -> PhraseOutcome {
        PhraseOutcome {
            confidence: self.confidence as nat,
            fields: self.fields.view(),
            length: self.length as nat,
        }
    }

    /// The confidence of a result is a `u64` and its length a `usize`.
    pub proof fn lemma_view_bounds(&self)
        ensures
            self@.confidence <= u64::MAX,
            self@.length <= usize::MAX,
    {
    }

    /// A result with the given confidence and length and no field values.
    pub fn new(confidence: u64, length: usize) -> (res: PhraseResult)
        ensures
            res.wf(),
            res@ == (PhraseOutcome { confidence: confidence as nat, fields: FieldMap::empty(), length: length as nat }),
    {
        PhraseResult { confidence, fields: FieldValues::new(), length }
    }

    /// Appends `values` to those of the field `name`.
    pub fn add_values(&mut self, name: &String, values: &Vec<String>)
        requires
            old(self).wf(),
        ensures
            final(self).wf(),
            final(self)@ == (PhraseOutcome { fields: add_to(old(self)@.fields, name@, views(values@)), ..old(self)@ }),
    {
        self.fields.add_values(name, values);
    }

    pub fn get_confidence(&self) -> (res: u64)
        ensures
            res == self@.confidence,
    {
        self.confidence
    }

    /// The length weighted by the confidence.
    pub fn get_score(&self) -> (res: u128)
        ensures
            res == score_of(self@),
    {
        proof {
            vstd::arithmetic::mul::lemma_mul_upper_bound(
                self.length as int,
                u64::MAX as int,
                self.confidence as int,
                u64::MAX as int,
            );
            assert(u64::MAX as int * u64::MAX as int <= u128::MAX) by (nonlinear_arith);
        }
        (self.length as u128) * (self.confidence as u128)
    }

    pub fn get_fields(&self) -> (res: &FieldValues)
        ensures
            res.view() == self@.fields,
            self.wf() ==> res.wf(),
    {
        &self.fields
    }

    pub fn len(&self) -> (res: usize)
        ensures
            res == self@.length,
    {
        self.length
    }

    /// Chains `o` after this result: confidences multiply, lengths add and the
    /// field values of `o` are added.
    pub fn merge(&mut self, o: &Self)
        requires
            old(self).wf(),
            o.wf(),
            conf_mul(old(self)@.confidence as int, o@.confidence as int) <= u64::MAX,
            old(self)@.length + o@.length <= usize::MAX,
        ensures
            final(self).wf(),
            final(self)@ == merged(old(self)@, o@),
    {
        proof {
            assert(self.confidence as int * o.confidence as int <= u64::MAX as int * u64::MAX as int)
                by (nonlinear_arith)
                requires
                    self.confidence <= u64::MAX,
                    o.confidence <= u64::MAX,
            ;
            assert(u64::MAX as int * u64::MAX as int <= u128::MAX) by (nonlinear_arith);
        }
        let product: u128 = (self.confidence as u128) * (o.confidence as u128) / (CONFIDENCE_SCALE as u128);
        self.confidence = product as u64;
        self.length = self.length + o.length;
        self.fields.add_all(&o.fields);
    }
}

/// `a` followed by `b` (see `PhraseResult::merge`).
pub open spec fn merged(a: PhraseOutcome, b: PhraseOutcome) -> PhraseOutcome {
    PhraseOutcome {
        confidence: conf_mul(a.confidence as int, b.confidence as int) as nat,
        fields: combine(a.fields, b.fields),
        length: a.length + b.length,
    }
}

/// Merging with a full-confidence match of nothing (no words, no fields) leaves a
/// match unchanged, on either side.
pub proof fn law_merge_identity(a: PhraseOutcome)
    requires
        a.confidence <= CONFIDENCE_SCALE,
    ensures
        merged(a, full_match_of_nothing()) == a,
        merged(full_match_of_nothing(), a) == a,
{
    assert((a.confidence * CONFIDENCE_SCALE) / (CONFIDENCE_SCALE as int) == a.confidence) by (nonlinear_arith);
    assert((CONFIDENCE_SCALE * a.confidence) / (CONFIDENCE_SCALE as int) == a.confidence) by (nonlinear_arith);
    assert(combine(a.fields, FieldMap::empty()) =~= a.fields);
    assert(combine(FieldMap::empty(), a.fields) =~= a.fields);
}

/// The match of no words with full confidence.
pub open spec fn full_match_of_nothing() -> PhraseOutcome {
    PhraseOutcome { confidence: CONFIDENCE_SCALE as nat, fields: FieldMap::empty(), length: 0 }
}

/// Collecting fields is associative: the values of three matches come out in the
/// same order however the matches are grouped.
pub proof fn law_combine_assoc(a: FieldMap, b: FieldMap, c: FieldMap)
    ensures
        combine(combine(a, b), c) == combine(a, combine(b, c)),
{
    assert forall|k: Seq<char>| #[trigger] combine(combine(a, b), c).contains_key(k) implies combine(combine(a, b), c)[k]
        == combine(a, combine(b, c))[k] by {
        assert(values_of(a, k) + values_of(b, k) + values_of(c, k) =~= values_of(a, k) + (values_of(b, k) + values_of(
            c,
            k,
        )));
    }
    assert(combine(combine(a, b), c) =~= combine(a, combine(b, c)));
}

/// Merging keeps the sum of the lengths and never raises the confidence above the
/// lower of the two, for confidences on the scale.
pub proof fn law_merge_bounds(a: PhraseOutcome, b: PhraseOutcome)
    requires
        a.confidence <= CONFIDENCE_SCALE,
        b.confidence <= CONFIDENCE_SCALE,
    ensures
        merged(a, b).length == a.length + b.length,
        merged(a, b).confidence <= a.confidence,
        merged(a, b).confidence <= b.confidence,
{
    let x = a.confidence as int;
    let y = b.confidence as int;
    let m = CONFIDENCE_SCALE as int;
    assert((x * y) / m <= x && (x * y) / m <= y && (x * y) / m >= 0) by (nonlinear_arith)
        requires
            0 <= x <= m,
            0 <= y <= m,
            m > 0,
    ;
}

} // verus!
