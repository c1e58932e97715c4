//! A small table from names to values, used for the processor's caches.
use vstd::prelude::*;

verus! {

/// Where the first entry named `k` is, or -1.
pub open spec fn first_key<V>(s: Seq<(Seq<char>, V)>, k: Seq<char>) -> int
    decreases s.len(),
{
    if s.len() == 0 {
        -1
    } else {
        let i = first_key(s.drop_last(), k);
        if i >= 0 {
            i
        } else if s.last().0 == k {
            s.len() - 1
        } else {
            -1
        }
    }
}

/// The value of the first entry named `k`.
pub open spec fn lookup<V>(s: Seq<(Seq<char>, V)>, k: Seq<char>) -> Option<V> {
    let i = first_key(s, k);
    if 0 <= i < s.len() {
        Some(s[i].1)
    } else {
        None
    }
}

pub proof fn lemma_first_key<V>(s: Seq<(Seq<char>, V)>, k: Seq<char>)
    ensures
        -1 <= first_key(s, k) < s.len(),
        first_key(s, k) == -1 <==> forall|j: int| 0 <= j < s.len() ==> s[j].0 != k,
        first_key(s, k) >= 0 ==> s[first_key(s, k)].0 == k && forall|j: int|
            0 <= j < first_key(s, k) ==> s[j].0 != k,
    decreases s.len(),
{
    if s.len() > 0 {
        lemma_first_key(s.drop_last(), k);
        assert forall|j: int| 0 <= j < s.len() - 1 implies s[j] == s.drop_last()[j] by {}
    }
}

/// Names with values; a name is looked up at its first entry.
pub struct Table<V> {
    entries: Vec<(String, V)>,
}

impl<V> Table<V> {
    pub closed spec fn view(&self) -> Seq<(Seq<char>, V)> {
        self.entries@.map_values(|e: (String, V)| (e.0@, e.1))
    }

    pub fn new() -> (res: Table<V>)
        ensures
            res@ == Seq::<(Seq<char>, V)>::empty(),
    {
        let res = Table { entries: Vec::new() };
        assert(res@ =~= Seq::<(Seq<char>, V)>::empty());
        res
    }

    fn find(&self, k: &String) -> (res: Option<usize>)
        ensures
            res is None ==> first_key(self@, k@) == -1,
            res matches Some(i) ==> i == first_key(self@, k@),
    {
        proof {
            lemma_first_key(self@, k@);
        }
        let mut i: usize = 0;
        while i < self.entries.len()
            invariant
                i <= self.entries@.len(),
                forall|j: int| 0 <= j < i ==> self@[j].0 != k@,
            decreases self.entries.len() - i,
        {
            if self.entries[i].0 == *k {
                proof {
                    lemma_first_key(self@, k@);
                    assert(self@[i as int].0 == k@);
                    if first_key(self@, k@) != i {
                        assert(self@[first_key(self@, k@)].0 == k@);
                    }
                }
                return Some(i);
            }
            i = i + 1;
        }
        None
    }

    /// The value stored for `k`.
    pub fn get(&self, k: &String) -> (res: Option<&V>)
        ensures
            match res {
                Some(v) => lookup(self@, k@) == Some(*v),
                None => lookup(self@, k@) is None,
            },
    {
        proof {
            lemma_first_key(self@, k@);
        }
        match self.find(k) {
            Some(i) => Some(&self.entries[i].1),
            None => None,
        }
    }

    /// Stores `v` for `k`, replacing what was stored for it.
    pub fn insert(&mut self, k: String, v: V)
        ensures
            lookup(final(self)@, k@) == Some(v),
            forall|k2: Seq<char>| k2 != k@ ==> #[trigger] lookup(final(self)@, k2) == lookup(old(self)@, k2),
            forall|i: int|
                0 <= i < final(self)@.len() ==> #[trigger] final(self)@[i] == (k@, v) || old(self)@.contains(
                    final(self)@[i],
                ),
    {
        let ghost old_view = self@;
        let ghost kv = k@;
        proof {
            lemma_first_key(old_view, kv);
        }
        match self.find(&k) {
            Some(i) => {
                self.entries.set(i, (k, v));
                proof {
                    assert(self@ =~= old_view.update(i as int, (kv, v)));
                    lemma_first_key(self@, kv);
                    assert forall|j: int| 0 <= j < i implies self@[j].0 != kv by {
                        assert(self@[j] == old_view[j]);
                    }
                    assert(self@[i as int].0 == kv);
                    if first_key(self@, kv) < i {
                        assert(self@[first_key(self@, kv)] == old_view[first_key(self@, kv)]);
                    }
                    assert(first_key(self@, kv) == i);
                    assert forall|k2: Seq<char>| k2 != kv implies #[trigger] lookup(self@, k2) == lookup(old_view, k2) by {
                        lemma_first_key(self@, k2);
                        lemma_first_key(old_view, k2);
                        let a = first_key(self@, k2);
                        let b = first_key(old_view, k2);
                        if a >= 0 && b >= 0 && a < b {
                            assert(old_view[a].0 == k2);
                        }
                        if a >= 0 && b >= 0 && b < a {
                            assert(self@[b].0 == k2);
                        }
                        if a >= 0 && b < 0 {
                            assert(old_view[a].0 == k2);
                        }
                        if a < 0 && b >= 0 {
                            assert(self@[b].0 == k2);
                        }
                    }
                    assert forall|j: int| 0 <= j < self@.len() implies #[trigger] self@[j] == (kv, v) || old_view.contains(
                        self@[j],
                    ) by {
                        if j != i {
                            assert(self@[j] == old_view[j]);
                        }
                    }
                }
            },
            None => {
                self.entries.push((k, v));
                proof {
                    assert(self@ =~= old_view.push((kv, v)));
                    lemma_first_key(self@, kv);
                    assert forall|j: int| 0 <= j < old_view.len() implies self@[j].0 != kv by {
                        assert(self@[j] == old_view[j]);
                    }
                    assert(self@[old_view.len() as int].0 == kv);
                    assert(first_key(self@, kv) == old_view.len());
                    assert forall|k2: Seq<char>| k2 != kv implies #[trigger] lookup(self@, k2) == lookup(old_view, k2) by {
                        lemma_first_key(self@, k2);
                        lemma_first_key(old_view, k2);
                        let a = first_key(self@, k2);
                        let b = first_key(old_view, k2);
                        if a >= 0 && b >= 0 && a < b {
                            assert(old_view[a].0 == k2);
                        }
                        if a >= 0 && b >= 0 && b < a {
                            assert(self@[b].0 == k2);
                        }
                        if a >= 0 && b < 0 && a < old_view.len() {
                            assert(old_view[a].0 == k2);
                        }
                        if a < 0 && b >= 0 {
                            assert(self@[b].0 == k2);
                        }
                    }
                    assert forall|j: int| 0 <= j < self@.len() implies #[trigger] self@[j] == (kv, v) || old_view.contains(
                        self@[j],
                    ) by {
                        if j < old_view.len() {
                            assert(self@[j] == old_view[j]);
                        }
                    }
                }
            },
        }
    }
}

} // verus!
