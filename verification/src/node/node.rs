//! The node tree: each task is a path of phrases from the base node, and input is
//! matched along the paths to find the task that covers it best.
use vstd::prelude::*;
use crate::node::result::{extended, node_score, plain_outcome, NodeOutcome, NodeResult};
use crate::phrase::phrase::{phrase_outcome, result_is, Phrase, PhraseStore};
use crate::phrase::result::{conf_mul, FieldMap, PhraseOutcome, CONFIDENCE_SCALE};
use crate::text::{indent, indented, views};
use vstd::utf8::encode_utf8;

verus! {

/// One step of a task path: a phrase, the task that ends here (empty if none) and
/// the steps that may follow.
pub struct Node {
    nodes: Vec<Node>,
    phrase: usize,
    task: String,
}

impl Node {
    pub closed spec fn phrase_id(&self) -> usize {
        self.phrase
    }

    pub closed spec fn task_view(&self) -> Seq<char> {
        self.task@
    }

    pub closed spec fn children(&self) -> Seq<Node> {
        self.nodes@
    }
}

/// Every phrase in the tree below `n` (itself included) is below `bound`.
pub closed spec fn tree_below(n: Node, bound: int) -> bool
    decreases n,
{
    &&& n.phrase < bound
    &&& forall|i: int| 0 <= i < n.nodes@.len() ==> tree_below(#[trigger] n.nodes@[i], bound)
}

/// The result for no match at all.
pub open spec fn nothing() -> NodeOutcome {
    plain_outcome(Seq::empty(), 0, 0)
}

/// Where `t` first occurs among the counted tasks, or -1.
pub open spec fn find_task(counts: Seq<(Seq<char>, nat)>, t: Seq<char>) -> int
    decreases counts.len(),
{
    if counts.len() == 0 {
        -1
    } else {
        let k = find_task(counts.drop_last(), t);
        if k >= 0 {
            k
        } else if counts.last().0 == t {
            counts.len() - 1
        } else {
            -1
        }
    }
}

/// One more occurrence of the task `t`.
pub open spec fn bump(counts: Seq<(Seq<char>, nat)>, t: Seq<char>) -> Seq<(Seq<char>, nat)> {
    let k = find_task(counts, t);
    if k >= 0 {
        counts.update(k, (t, counts[k].1 + 1))
    } else {
        counts.push((t, 1))
    }
}

/// Going through the results `rs` in order, keeps those with the best score seen so
/// far (the first kept one is `initial`, until a result beats it) and counts how
/// often each task occurs among the kept results that came from `rs`; the flag says
/// whether some result beat `initial`.
pub open spec fn tally(initial: NodeOutcome, rs: Seq<NodeOutcome>) -> (
    Seq<NodeOutcome>,
    Seq<(Seq<char>, nat)>,
    bool,
)
    decreases rs.len(),
{
    if rs.len() == 0 {
        (seq![initial], Seq::empty(), false)
    } else {
        let prev = tally(initial, rs.drop_last());
        let r = rs.last();
        if node_score(r) > node_score(prev.0[0]) {
            (seq![r], seq![(r.task, 1nat)], true)
        } else if node_score(r) == node_score(prev.0[0]) {
            (prev.0.push(r), bump(prev.1, r.task), prev.2)
        } else {
            prev
        }
    }
}

/// The task counted most often (the first such one), with its count; the empty task
/// when nothing was counted.
pub open spec fn best_task(counts: Seq<(Seq<char>, nat)>) -> (Seq<char>, nat)
    decreases counts.len(),
{
    if counts.len() == 0 {
        (Seq::empty(), 0)
    } else {
        let b = best_task(counts.drop_last());
        if counts.last().1 > b.1 {
            counts.last()
        } else {
            b
        }
    }
}

/// Among the first `k` kept results whose task is `task`, the first of greatest
/// length; the flag says whether there is none (the index is then 0).
pub open spec fn index_fold(pot: Seq<NodeOutcome>, task: Seq<char>, k: int) -> (bool, int)
    decreases k,
{
    if k <= 0 {
        (true, 0)
    } else {
        let p = index_fold(pot, task, k - 1);
        if pot[k - 1].task == task && (p.0 || pot[k - 1].length > pot[p.1].length) {
            (false, k - 1)
        } else {
            p
        }
    }
}

/// Which kept result is chosen: the longest one of the most frequent task.
pub open spec fn chosen_index(pot: Seq<NodeOutcome>, counts: Seq<(Seq<char>, nat)>) -> int {
    index_fold(pot, best_task(counts).0, pot.len() as int).1
}

/// What a node with task `task` offers before looking at what follows it.
pub open spec fn initial_outcome(task: Seq<char>, my: PhraseOutcome) -> NodeOutcome {
    if task.len() > 0 {
        plain_outcome(task, my.confidence, my.length)
    } else {
        plain_outcome(task, 0, 0)
    }
}

/// The choice among the results `rs` of the following nodes, for a node that
/// offers `initial` itself and matched `my`: a result taken from a following node is
/// extended by `my`.
pub open spec fn node_choice(initial: NodeOutcome, rs: Seq<NodeOutcome>, my: PhraseOutcome) -> NodeOutcome {
    let t = tally(initial, rs);
    let idx = chosen_index(t.0, t.1);
    if t.2 || idx != 0 {
        extended(t.0[idx], my.confidence, my.length, my.fields)
    } else {
        t.0[idx]
    }
}

/// The choice among the results `rs` of the top-level nodes.
pub open spec fn base_choice(rs: Seq<NodeOutcome>) -> NodeOutcome {
    let t = tally(nothing(), rs);
    t.0[chosen_index(t.0, t.1)]
}

/// The result of matching `input` against the node `n`; `None` where the match would
/// slice past the end of the input (or a phrase match would).
pub closed spec fn node_outcome(s: Seq<Phrase>, n: Node, input: Seq<Seq<char>>) -> Option<NodeOutcome>
    decreases n, 1int, 0int,
{
    match phrase_outcome(s, n.phrase as int, input) {
        None => None,
        Some(my) => {
            if my.length == 0 {
                Some(nothing())
            } else if my.length == input.len() && n.task@.len() > 0 {
                Some(
                    NodeOutcome {
                        task: n.task@,
                        confidence: my.confidence,
                        fields: my.fields,
                        length: my.length,
                    },
                )
            } else if my.length > input.len() {
                None
            } else if n.nodes@.len() == 0 {
                Some(initial_outcome(n.task@, my))
            } else {
                match children_outcomes(s, n.nodes@, n.nodes@.len() as int, input.skip(my.length as int)) {
                    None => None,
                    Some(rs) => Some(node_choice(initial_outcome(n.task@, my), rs, my)),
                }
            }
        },
    }
}

/// The results of the first `k` of `nodes`, in order.
pub open spec fn children_outcomes(s: Seq<Phrase>, nodes: Seq<Node>, k: int, input: Seq<Seq<char>>) -> Option<
    Seq<NodeOutcome>,
>
    decreases nodes, 0int, k,
{
    if k <= 0 || k > nodes.len() {
        Some(Seq::empty())
    } else {
        match children_outcomes(s, nodes, k - 1, input) {
            None => None,
            Some(rs) => match node_outcome(s, nodes[k - 1], input) {
                None => None,
                Some(r) => Some(rs.push(r)),
            },
        }
    }
}

/// `res` is the executable form of `spec`, covering at most `max_len` words.
pub open spec fn node_result_is(res: Option<NodeResult>, spec: Option<NodeOutcome>, max_len: nat) -> bool {
    match res {
        None => spec is None,
        Some(r) => spec == Some(r@) && r.wf() && r@.confidence <= CONFIDENCE_SCALE && r@.length <= max_len,
    }
}

proof fn lemma_children_prefix_none(s: Seq<Phrase>, nodes: Seq<Node>, k: int, m: int, input: Seq<Seq<char>>)
    requires
        0 <= k <= m <= nodes.len(),
        children_outcomes(s, nodes, k, input) is None,
    ensures
        children_outcomes(s, nodes, m, input) is None,
    decreases m - k,
{
    if k < m {
        lemma_children_prefix_none(s, nodes, k, m - 1, input);
    }
}

/// A bound that holds for a tree holds for every larger bound.
pub proof fn lemma_tree_below_mono(n: Node, b: int, b2: int)
    requires
        tree_below(n, b),
        b <= b2,
    ensures
        tree_below(n, b2),
    decreases n,
{
    assert forall|i: int| 0 <= i < n.nodes@.len() implies tree_below(#[trigger] n.nodes@[i], b2) by {
        assert(tree_below(n.nodes@[i], b));
        lemma_tree_below_mono(n.nodes@[i], b, b2);
    }
}

proof fn lemma_tree_child(n: Node, i: int, bound: int)
    requires
        tree_below(n, bound),
        0 <= i < n.nodes@.len(),
    ensures
        tree_below(n.nodes@[i], bound),
{
    assert(tree_below(n.nodes@[i], bound));
}

/// The counted tasks as values.
pub open spec fn counts_view(v: Seq<(String, usize)>) -> Seq<(Seq<char>, nat)> {
    v.map_values(|p: (String, usize)| (p.0@, p.1 as nat))
}

/// The kept results as values.
pub open spec fn pot_view(v: Seq<NodeResult>) -> Seq<NodeOutcome> {
    v.map_values(|r: NodeResult| r@)
}

proof fn lemma_find_task(c: Seq<(Seq<char>, nat)>, t: Seq<char>)
    ensures
        -1 <= find_task(c, t) < c.len(),
        find_task(c, t) == -1 <==> forall|j: int| 0 <= j < c.len() ==> c[j].0 != t,
        find_task(c, t) >= 0 ==> c[find_task(c, t)].0 == t && forall|j: int|
            0 <= j < find_task(c, t) ==> c[j].0 != t,
    decreases c.len(),
{
    if c.len() > 0 {
        lemma_find_task(c.drop_last(), t);
        assert forall|j: int| 0 <= j < c.len() - 1 implies c[j] == c.drop_last()[j] by {}
    }
}

/// `r` is the pick among `rs` with `initial` offered first, and `from_rs` says
/// whether it came from `rs`.
pub open spec fn picked(initial: NodeOutcome, rs: Seq<NodeOutcome>, r: NodeOutcome, from_rs: bool) -> bool {
    let t = tally(initial, rs);
    let idx = chosen_index(t.0, t.1);
    &&& r == t.0[idx]
    &&& from_rs == (t.2 || idx != 0)
}

/// Counts one more occurrence of `t`.
fn bump_count(counts: &mut Vec<(String, usize)>, t: &String, Ghost(bound): Ghost<nat>)
    requires
        forall|k: int| 0 <= k < old(counts)@.len() ==> #[trigger] old(counts)@[k].1 <= bound,
        bound < usize::MAX,
    ensures
        counts_view(final(counts)@) == bump(counts_view(old(counts)@), t@),
        forall|k: int| 0 <= k < final(counts)@.len() ==> #[trigger] final(counts)@[k].1 <= bound + 1,
{
    let ghost cv = counts_view(counts@);
    proof {
        lemma_find_task(cv, t@);
    }
    let mut i: usize = 0;
    while i < counts.len()
        invariant
            i <= counts@.len(),
            counts@ == old(counts)@,
            cv == counts_view(counts@),
            forall|k: int| 0 <= k < counts@.len() ==> #[trigger] counts@[k].1 <= bound,
            bound < usize::MAX,
            forall|j: int| 0 <= j < i ==> cv[j].0 != t@,
        decreases counts.len() - i,
    {
        if counts[i].0 == *t {
            proof {
                lemma_find_task(cv, t@);
                assert(cv[i as int].0 == t@);
                if find_task(cv, t@) != i {
                    assert(cv[find_task(cv, t@)].0 == t@);
                }
            }
            let c = counts[i].1;
            counts.set(i, (t.clone(), c + 1));
            proof {
                assert(counts_view(counts@) =~= cv.update(i as int, (t@, cv[i as int].1 + 1)));
                assert forall|k: int| 0 <= k < counts@.len() implies #[trigger] counts@[k].1 <= bound + 1 by {
                    if k != i {
                        assert(counts@[k] == old(counts)@[k]);
                    }
                }
            }
            return;
        }
        i = i + 1;
    }
    counts.push((t.clone(), 1));
    proof {
        lemma_find_task(cv, t@);
        assert(counts_view(counts@) =~= cv.push((t@, 1nat)));
        assert forall|k: int| 0 <= k < counts@.len() implies #[trigger] counts@[k].1 <= bound + 1 by {
            if k < old(counts)@.len() {
                assert(counts@[k] == old(counts)@[k]);
            }
        }
    }
}

/// The task counted most often (the first such one).
fn most_counted(counts: &Vec<(String, usize)>) -> (res: String)
    ensures
        res@ == best_task(counts_view(counts@)).0,
{
    let ghost cv = counts_view(counts@);
    let mut max_task = String::new();
    let mut max_count: usize = 0;
    let mut i: usize = 0;
    proof {
        assert(cv.take(0) =~= Seq::<(Seq<char>, nat)>::empty());
    }
    while i < counts.len()
        invariant
            i <= counts@.len(),
            cv == counts_view(counts@),
            best_task(cv.take(i as int)) == (max_task@, max_count as nat),
        decreases counts.len() - i,
    {
        proof {
            assert(cv.take(i + 1).drop_last() == cv.take(i as int));
            assert(cv.take(i + 1).last() == cv[i as int]);
        }
        if counts[i].1 > max_count {
            max_task = counts[i].0.clone();
            max_count = counts[i].1;
        }
        i = i + 1;
    }
    proof {
        assert(cv.take(i as int) == cv);
    }
    max_task
}

/// The first result of greatest length among those whose task is `task`; 0 if none.
fn longest_with_task(pot: &Vec<NodeResult>, task: &String) -> (res: usize)
    requires
        pot@.len() > 0,
    ensures
        res == index_fold(pot_view(pot@), task@, pot@.len() as int).1,
        res < pot@.len(),
{
    let ghost pv = pot_view(pot@);
    let mut first = true;
    let mut idx: usize = 0;
    let mut i: usize = 0;
    while i < pot.len()
        invariant
            i <= pot@.len(),
            pv == pot_view(pot@),
            index_fold(pv, task@, i as int) == (first, idx as int),
            idx < pot@.len(),
            !first ==> idx < i,
        decreases pot.len() - i,
    {
        if *pot[i].get_task() == *task {
            if first || pot[i].len() > pot[idx].len() {
                idx = i;
                first = false;
            }
        }
        i = i + 1;
    }
    idx
}

/// Matches `input` against each of `nodes`, keeps the results with the best score
/// and picks one (see `node_choice`); the flag says whether the pick came from one of
/// `nodes` rather than being `initial` itself.
pub(crate) fn choose_among(store: &PhraseStore, nodes: &Vec<Node>, input: &[String], initial: NodeResult) -> (res: Option<
    (NodeResult, bool),
>)
    requires
        store.wf(),
        forall|i: int| 0 <= i < nodes@.len() ==> tree_below(#[trigger] nodes@[i], store@.len() as int),
        initial.wf(),
        initial@.confidence <= CONFIDENCE_SCALE,
    ensures
        match res {
            None => children_outcomes(store@, nodes@, nodes@.len() as int, views(input@)) is None,
            Some(p) => children_outcomes(store@, nodes@, nodes@.len() as int, views(input@)) matches Some(rs)
                && picked(initial@, rs, p.0@, p.1) && p.0.wf() && p.0@.confidence <= CONFIDENCE_SCALE && (p.1
                ==> p.0@.length <= input@.len()) && (!p.1 ==> p.0@ == initial@),
        },
    decreases nodes@, 0int, 0int,
{
    let ghost inp = views(input@);
    let ghost init_v = initial@;
    let ghost mut rs: Seq<NodeOutcome> = Seq::empty();
    let mut potential: Vec<NodeResult> = Vec::new();
    potential.push(initial);
    let mut task_count: Vec<(String, usize)> = Vec::new();
    let mut changed = false;
    let mut i: usize = 0;
    proof {
        assert(pot_view(potential@) =~= seq![init_v]);
        assert(counts_view(task_count@) =~= Seq::<(Seq<char>, nat)>::empty());
    }
    while i < nodes.len()
        invariant
            i <= nodes@.len(),
            store.wf(),
            forall|k: int| 0 <= k < nodes@.len() ==> tree_below(#[trigger] nodes@[k], store@.len() as int),
            inp == views(input@),
            children_outcomes(store@, nodes@, i as int, inp) == Some(rs),
            tally(init_v, rs) == (pot_view(potential@), counts_view(task_count@), changed),
            potential@.len() >= 1,
            forall|k: int|
                0 <= k < potential@.len() ==> {
                    &&& (#[trigger] potential@[k]).wf()
                    &&& potential@[k]@.confidence <= CONFIDENCE_SCALE
                    &&& (k > 0 || changed) ==> potential@[k]@.length <= inp.len()
                    &&& (k == 0 && !changed) ==> potential@[k]@ == init_v
                },
            forall|k: int| 0 <= k < task_count@.len() ==> #[trigger] task_count@[k].1 <= i,
        decreases nodes@.len() - i,
    {
        let r = nodes[i].try_input(store, input);
        let r = match r {
            None => {
                proof {
                    lemma_children_prefix_none(store@, nodes@, i + 1, nodes@.len() as int, inp);
                }
                return None;
            },
            Some(r) => r,
        };
        let ghost prev_rs = rs;
        proof {
            rs = rs.push(r@);
            assert(rs.drop_last() == prev_rs);
        }
        if r.get_score() > potential[0].get_score() {
            changed = true;
            task_count.clear();
            potential.clear();
            task_count.push((r.get_task().clone(), 1));
            potential.push(r);
            proof {
                assert(pot_view(potential@) =~= seq![rs.last()]);
                assert(counts_view(task_count@) =~= seq![(rs.last().task, 1nat)]);
            }
        } else if r.get_score() == potential[0].get_score() {
            let ghost prev_pot = potential@;
            bump_count(&mut task_count, r.get_task(), Ghost(i as nat));
            potential.push(r);
            proof {
                assert(pot_view(potential@) =~= pot_view(prev_pot).push(rs.last()));
                assert forall|k: int| 0 <= k < potential@.len() implies {
                    &&& (#[trigger] potential@[k]).wf()
                    &&& potential@[k]@.confidence <= CONFIDENCE_SCALE
                    &&& (k > 0 || changed) ==> potential@[k]@.length <= inp.len()
                    &&& (k == 0 && !changed) ==> potential@[k]@ == init_v
                } by {
                    if k < prev_pot.len() {
                        assert(potential@[k] == prev_pot[k]);
                    }
                }
            }
        }
        i = i + 1;
    }
    let max_task = most_counted(&task_count);
    let idx = longest_with_task(&potential, &max_task);
    if idx != 0 {
        changed = true;
    }
    proof {
        assert(potential@[idx as int]@ == pot_view(potential@)[idx as int]);
    }
    let result = potential.remove(idx);
    Some((result, changed))
}

impl Node {
    /// Matches `input` against this node and the nodes that follow it.
    pub fn input(&self, store: &PhraseStore, input: &[String]) -> (res: NodeResult)
        requires
            store.wf(),
            tree_below(*self, store@.len() as int),
            node_outcome(store@, *self, views(input@)) is Some,
        ensures
            res.wf(),
            node_outcome(store@, *self, views(input@)) == Some(res@),
            res@.length <= input@.len(),
    {
        match self.try_input(store, input) {
            Some(r) => r,
            None => NodeResult::new(&String::new(), 0, 0),
        }
    }

    /// Matches `input` against this node and the nodes that follow it; `None`
    /// exactly where the match would slice past the end of the input.
    pub fn try_input(&self, store: &PhraseStore, input: &[String]) -> (res: Option<NodeResult>)
        requires
            store.wf(),
            tree_below(*self, store@.len() as int),
        ensures
            node_result_is(res, node_outcome(store@, *self, views(input@)), input@.len()),
        decreases *self, 1int, 0int,
    {
        let my_result = match store.try_matches(self.phrase, input) {
            None => return None,
            Some(r) => r,
        };
        if my_result.len() == 0 {
            return Some(NodeResult::new(&String::new(), 0, 0));
        } else if my_result.len() == input.len() && !self.task.as_str().is_empty() {
            return Some(NodeResult::new_from_phrase(&self.task, &my_result));
        }
        if my_result.len() > input.len() {
            return None;
        }
        let next_input = vstd::slice::slice_subrange(input, my_result.len(), input.len());
        proof {
            assert(views(next_input@) =~= views(input@).skip(my_result@.length as int));
        }
        let (result_conf, result_length) = if !self.task.as_str().is_empty() {
            (my_result.get_confidence(), my_result.len())
        } else {
            (0, 0)
        };
        let initial = NodeResult::new(&self.task, result_conf, result_length);
        if self.nodes.len() == 0 {
            return Some(initial);
        }
        proof {
            assert forall|i: int| 0 <= i < self.nodes@.len() implies tree_below(
                #[trigger] self.nodes@[i],
                store@.len() as int,
            ) by {
                lemma_tree_child(*self, i, store@.len() as int);
            }
        }
        match choose_among(store, &self.nodes, next_input, initial) {
            None => None,
            Some(chosen) => {
                let (mut result, adjust) = chosen;
                if adjust {
                    proof {
                        assert(result@.confidence * my_result@.confidence <= CONFIDENCE_SCALE * CONFIDENCE_SCALE)
                            by (nonlinear_arith)
                            requires
                                result@.confidence <= CONFIDENCE_SCALE,
                                my_result@.confidence <= CONFIDENCE_SCALE,
                        ;
                    }
                    result.mult_confidence(my_result.get_confidence());
                    result.add_length(my_result.len());
                    result.add_fields(my_result.get_fields());
                }
                Some(result)
            },
        }
    }
}

/// Where the first of `nodes` with phrase `x` is, or -1.
pub open spec fn first_with(nodes: Seq<Node>, x: usize) -> int
    decreases nodes.len(),
{
    if nodes.len() == 0 {
        -1
    } else {
        let k = first_with(nodes.drop_last(), x);
        if k >= 0 {
            k
        } else if nodes.last().phrase_id() == x {
            nodes.len() - 1
        } else {
            -1
        }
    }
}

/// `a` and `b` are the same tree: the same phrases and tasks, node by node, with
/// the followers in the same order.
pub open spec fn same_tree(a: Node, b: Node) -> bool
    decreases a,
{
    &&& a.phrase_id() == b.phrase_id()
    &&& a.task_view() == b.task_view()
    &&& a.children().len() == b.children().len()
    &&& forall|j: int| 0 <= j < a.children().len() ==> same_tree(#[trigger] a.children()[j], b.children()[j])
}

/// Every tree is the same as itself.
pub proof fn lemma_same_tree_refl(n: Node)
    ensures
        same_tree(n, n),
    decreases n,
{
    assert forall|j: int| 0 <= j < n.children().len() implies same_tree(#[trigger] n.children()[j], n.children()[j]) by {
        lemma_same_tree_refl(n.children()[j]);
    }
}

/// `c` is a chain of new nodes for the phrases `p` ending in the task `t`: one node
/// per phrase, each but the last without a task and with the next as its only
/// follower, the last with `t` and no follower.
pub open spec fn is_chain(c: Node, p: Seq<usize>, t: Seq<char>) -> bool
    decreases p.len(),
{
    &&& p.len() > 0
    &&& c.phrase_id() == p[0]
    &&& if p.len() == 1 {
        c.task_view() == t && c.children().len() == 0
    } else {
        &&& c.task_view() == Seq::<char>::empty()
        &&& c.children().len() == 1
        &&& is_chain(c.children()[0], p.drop_first(), t)
    }
}

/// `after` is `before` with the path `p` (starting at `before`) added for the task
/// `t`: the last node of the path gets `t`; along the way the first follower with
/// the next phrase is followed and changed in place, and where there is none, a
/// chain for the rest of the path is put after the other followers.  Nothing else
/// changes.
pub open spec fn node_added(before: Node, after: Node, p: Seq<usize>, t: Seq<char>) -> bool
    decreases p.len(), 0int,
{
    &&& after.phrase_id() == before.phrase_id()
    &&& if p.len() <= 1 {
        after.task_view() == t && after.children() == before.children()
    } else {
        &&& after.task_view() == before.task_view()
        &&& children_added(before.children(), after.children(), p.drop_first(), t)
    }
}

/// `after` is the list of nodes `before` with the path `p` added for the task `t`:
/// the first node with the phrase `p[0]` is changed in place (see `node_added`), or,
/// where there is none, a chain for `p` is put last.  The other nodes stay.
pub open spec fn children_added(before: Seq<Node>, after: Seq<Node>, p: Seq<usize>, t: Seq<char>) -> bool
    decreases p.len(), 1int,
{
    let i = first_with(before, p[0]);
    if p.len() == 0 {
        false
    } else if 0 <= i < before.len() {
        &&& after.len() == before.len()
        &&& forall|j: int| 0 <= j < before.len() && j != i ==> #[trigger] after[j] == before[j]
        &&& node_added(before[i], after[i], p, t)
    } else {
        &&& after.len() == before.len() + 1
        &&& forall|j: int| 0 <= j < before.len() ==> #[trigger] after[j] == before[j]
        &&& is_chain(after.last(), p, t)
    }
}

/// The task at the end of the path `q` of phrases starting at `n`: `None` if there
/// is no such path, the empty task if the path leads to a node without a task.
/// Where several following nodes have the same phrase, the first one is taken.
pub closed spec fn node_task_at(n: Node, q: Seq<usize>) -> Option<Seq<char>>
    decreases n, 1int,
{
    if q.len() == 0 || q[0] != n.phrase {
        None
    } else if q.len() == 1 {
        Some(n.task@)
    } else {
        task_at(n.nodes@, q.drop_first())
    }
}

/// The task at the end of the path `q` of phrases starting at one of `nodes`.
pub open spec fn task_at(nodes: Seq<Node>, q: Seq<usize>) -> Option<Seq<char>>
    decreases nodes, 0int,
{
    if q.len() == 0 {
        None
    } else {
        let k = first_with(nodes, q[0]);
        if 0 <= k < nodes.len() {
            node_task_at(nodes[k], q)
        } else {
            None
        }
    }
}

/// `q` is a non-empty proper prefix of `p`.
pub open spec fn proper_prefix(q: Seq<usize>, p: Seq<usize>) -> bool {
    0 < q.len() < p.len() && q == p.take(q.len() as int)
}

/// What a freshly built path `p` to `t` holds at `q`.
pub open spec fn fresh_path(p: Seq<usize>, t: Seq<char>, q: Seq<usize>) -> Option<Seq<char>> {
    if q == p {
        Some(t)
    } else if proper_prefix(q, p) {
        Some(Seq::empty())
    } else {
        None
    }
}

/// Adding the path `p` to `t` turned the paths of `before` into those of `after`:
/// `p` now leads to `t`, every prefix of `p` leads somewhere (one that did not lead
/// anywhere now leads to a node without a task), and every other path is unchanged.
pub open spec fn path_added(before: Node, after: Node, p: Seq<usize>, t: Seq<char>) -> bool {
    &&& node_task_at(after, p) == Some(t)
    &&& forall|q: Seq<usize>| #[trigger] proper_prefix(q, p) ==> node_task_at(after, q) is Some
    &&& forall|q: Seq<usize>|
        q != p ==> #[trigger] node_task_at(after, q) == node_task_at(before, q) || (node_task_at(before, q) is None
            && proper_prefix(q, p) && node_task_at(after, q) == Some(Seq::<char>::empty()))
}

/// The same as `path_added`, for paths starting at one of the nodes of a list.
pub open spec fn path_added_among(before: Seq<Node>, after: Seq<Node>, p: Seq<usize>, t: Seq<char>) -> bool {
    &&& task_at(after, p) == Some(t)
    &&& forall|q: Seq<usize>| #[trigger] proper_prefix(q, p) ==> task_at(after, q) is Some
    &&& forall|q: Seq<usize>|
        q != p ==> #[trigger] task_at(after, q) == task_at(before, q) || (task_at(before, q) is None
            && proper_prefix(q, p) && task_at(after, q) == Some(Seq::<char>::empty()))
}

/// `a` and `b` have the same paths, leading to the same tasks.
pub open spec fn same_paths(a: Node, b: Node) -> bool {
    forall|q: Seq<usize>| #[trigger] node_task_at(a, q) == node_task_at(b, q)
}

/// A task that is already there and differs from `t` stops `t` from being added.
pub open spec fn conflicting(existing: Option<Seq<char>>, t: Seq<char>) -> bool {
    existing matches Some(t0) && t0.len() > 0 && t0 != t
}

/// The error message for two tasks on the same input.
pub open spec fn same_input_message(a: Seq<char>, b: Seq<char>) -> Seq<char> {
    "Cannot compile because '"@ + a + "' and '"@ + b + "' has same input"@
}

/// Paths that start alike compare by their rests.
proof fn lemma_prefix_cons(q: Seq<usize>, p: Seq<usize>)
    requires
        q.len() > 0,
        p.len() > 0,
        q[0] == p[0],
    ensures
        q == p <==> q.drop_first() == p.drop_first(),
        proper_prefix(q, p) <==> (q.len() == 1 && p.len() > 1) || proper_prefix(q.drop_first(), p.drop_first()),
{
    if q.drop_first() == p.drop_first() {
        assert(q =~= seq![q[0]] + q.drop_first());
        assert(p =~= seq![p[0]] + p.drop_first());
    }
    if proper_prefix(q, p) && q.len() > 1 {
        assert(q.drop_first() =~= p.drop_first().take(q.drop_first().len() as int));
    }
    if proper_prefix(q.drop_first(), p.drop_first()) {
        assert forall|j: int| 0 <= j < q.len() implies q[j] == p.take(q.len() as int)[j] by {
            if j > 0 {
                assert(q[j] == q.drop_first()[j - 1]);
                assert(q.drop_first()[j - 1] == p.drop_first().take(q.drop_first().len() as int)[j - 1]);
            }
        }
        assert(q =~= p.take(q.len() as int));
    }
    if q.len() == 1 && p.len() > 1 {
        assert(q =~= p.take(1));
    }
}

/// A prefix starts like the path.
pub proof fn lemma_proper_prefix_head(q: Seq<usize>, p: Seq<usize>)
    requires
        proper_prefix(q, p),
    ensures
        q[0] == p[0],
{
    assert(q[0] == p.take(q.len() as int)[0]);
}

/// A path starting with a different phrase is neither `p` nor a prefix of it.
proof fn lemma_prefix_head(q: Seq<usize>, p: Seq<usize>)
    requires
        q.len() > 0,
        p.len() > 0,
        q[0] != p[0],
    ensures
        q != p,
        !proper_prefix(q, p),
{
    if proper_prefix(q, p) {
        assert(q[0] == p.take(q.len() as int)[0]);
    }
}

pub proof fn lemma_first_with(nodes: Seq<Node>, x: usize)
    ensures
        -1 <= first_with(nodes, x) < nodes.len(),
        first_with(nodes, x) == -1 <==> forall|j: int| 0 <= j < nodes.len() ==> nodes[j].phrase_id() != x,
        first_with(nodes, x) >= 0 ==> nodes[first_with(nodes, x)].phrase_id() == x && forall|j: int|
            0 <= j < first_with(nodes, x) ==> nodes[j].phrase_id() != x,
    decreases nodes.len(),
{
    if nodes.len() > 0 {
        lemma_first_with(nodes.drop_last(), x);
        assert forall|j: int| 0 <= j < nodes.len() - 1 implies nodes[j] == nodes.drop_last()[j] by {}
    }
}

/// A path is looked up in the first node with its first phrase.
pub proof fn lemma_task_at_first(nodes: Seq<Node>, q: Seq<usize>)
    requires
        q.len() > 0,
    ensures
        first_with(nodes, q[0]) >= 0 ==> task_at(nodes, q) == node_task_at(nodes[first_with(nodes, q[0])], q),
        first_with(nodes, q[0]) < 0 ==> task_at(nodes, q) is None,
{
    lemma_first_with(nodes, q[0]);
}

/// Replacing the node at `i` by one with the same phrase changes the paths through
/// it (if it is the first with that phrase) and nothing else.
pub proof fn lemma_task_at_update(nodes: Seq<Node>, i: int, c: Node, q: Seq<usize>)
    requires
        0 <= i < nodes.len(),
        c.phrase_id() == nodes[i].phrase_id(),
    ensures
        task_at(nodes.update(i, c), q) == if q.len() > 0 && first_with(nodes, q[0]) == i {
            node_task_at(c, q)
        } else {
            task_at(nodes, q)
        },
{
    let nn = nodes.update(i, c);
    if q.len() > 0 {
        lemma_first_with(nodes, q[0]);
        lemma_first_with(nn, q[0]);
        let k = first_with(nodes, q[0]);
        let k2 = first_with(nn, q[0]);
        assert forall|j: int| 0 <= j < nodes.len() implies nn[j].phrase_id() == nodes[j].phrase_id() by {}
        if k >= 0 && k2 > k {
            assert(nn[k].phrase_id() == q[0]);
        }
        if k2 >= 0 && k > k2 {
            assert(nodes[k2].phrase_id() == q[0]);
        }
        if k == -1 && k2 >= 0 {
            assert(nodes[k2].phrase_id() == q[0]);
        }
        if k2 == -1 && k >= 0 {
            assert(nn[k].phrase_id() == q[0]);
        }
        assert(k == k2);
    }
}

/// Appending a node whose phrase no node has yet adds exactly its paths.
pub proof fn lemma_task_at_push(nodes: Seq<Node>, c: Node, q: Seq<usize>)
    requires
        forall|j: int| 0 <= j < nodes.len() ==> nodes[j].phrase_id() != c.phrase_id(),
    ensures
        task_at(nodes.push(c), q) == if q.len() > 0 && q[0] == c.phrase_id() {
            node_task_at(c, q)
        } else {
            task_at(nodes, q)
        },
{
    let nn = nodes.push(c);
    if q.len() > 0 {
        lemma_first_with(nodes, q[0]);
        lemma_first_with(nn, q[0]);
        let k = first_with(nodes, q[0]);
        let k2 = first_with(nn, q[0]);
        assert forall|j: int| 0 <= j < nodes.len() implies nn[j] == nodes[j] by {}
        if q[0] == c.phrase_id() {
            assert(nn[nodes.len() as int].phrase_id() == q[0]);
            assert(k2 == nodes.len());
        } else {
            if k2 >= 0 && k2 < nodes.len() {
                assert(nodes[k2].phrase_id() == q[0]);
            }
            if k >= 0 {
                assert(nn[k].phrase_id() == q[0]);
            }
            assert(k == k2);
        }
    }
}

impl Node {
    /// A node for `phrase` where the task `task` ends, with nothing following.
    pub fn new(phrase: usize, task: &String) -> (res: Node)
        ensures
            res.phrase_id() == phrase,
            res.task_view() == task@,
            res.children().len() == 0,
            is_chain(res, seq![phrase], task@),
            forall|q: Seq<usize>| #[trigger] node_task_at(res, q) == fresh_path(seq![phrase], task@, q),
            forall|b: int| phrase < b ==> tree_below(res, b),
    {
        let res = Node { nodes: Vec::new(), phrase, task: task.clone() };
        proof {
            assert forall|q: Seq<usize>| #[trigger] node_task_at(res, q) == fresh_path(seq![phrase], task@, q) by {
                if q.len() == 1 && q[0] == phrase {
                    assert(q =~= seq![phrase]);
                }
                if q.len() > 1 && q[0] == phrase {
                    assert(res.nodes@ =~= Seq::<Node>::empty());
                    assert(first_with(res.nodes@, q.drop_first()[0]) == -1);
                }
            }
        }
        res
    }

    /// A chain of nodes for the phrases `phrases`, where only the last one has a
    /// task (`task`).
    pub fn new_from_phrases(phrases: &[usize], task: &String) -> (res: Result<Node, String>)
        ensures
            phrases@.len() == 0 <==> res is Err,
            res matches Err(m) ==> m@ == "No phrases found in slice ref when creating node"@,
            res matches Ok(n) ==> {
                &&& n.phrase_id() == phrases@[0]
                &&& is_chain(n, phrases@, task@)
                &&& forall|q: Seq<usize>| #[trigger] node_task_at(n, q) == fresh_path(phrases@, task@, q)
                &&& forall|b: int| all_ids_below(phrases@, b) ==> tree_below(n, b)
            },
        decreases phrases@.len(),
    {
        if phrases.len() == 0 {
            return Err(String::from_str("No phrases found in slice ref when creating node"));
        }
        let ghost p = phrases@;
        if phrases.len() == 1 {
            let n = Node::new(phrases[0], task);
            proof {
                assert(p =~= seq![phrases@[0]]);
                assert forall|b: int| all_ids_below(p, b) implies tree_below(n, b) by {
                    assert(p[0] < b);
                }
            }
            return Ok(n);
        }
        let rest = vstd::slice::slice_subrange(phrases, 1, phrases.len());
        let child = match Node::new_from_phrases(rest, task) {
            Ok(c) => c,
            Err(e) => return Err(e),
        };
        let mut nodes: Vec<Node> = Vec::new();
        nodes.push(child);
        let n = Node { nodes, phrase: phrases[0], task: String::new() };
        proof {
            assert(rest@ == p.drop_first());
            assert(n.nodes@ =~= seq![child]);
            assert forall|q: Seq<usize>| #[trigger] node_task_at(n, q) == fresh_path(p, task@, q) by {
                if q.len() > 0 && q[0] == p[0] {
                    lemma_prefix_cons(q, p);
                    if q.len() == 1 {
                        assert(q != p);
                    } else {
                        let q1 = q.drop_first();
                        lemma_first_with(n.nodes@, q1[0]);
                        assert(node_task_at(n, q) == task_at(n.nodes@, q1));
                        if q1[0] == child.phrase_id() {
                            assert(first_with(n.nodes@, q1[0]) == 0);
                            assert(task_at(n.nodes@, q1) == node_task_at(child, q1));
                        } else {
                            assert(first_with(n.nodes@, q1[0]) == -1);
                            assert(node_task_at(child, q1) is None);
                        }
                        assert(node_task_at(child, q1) == fresh_path(rest@, task@, q1));
                    }
                } else if q.len() > 0 {
                    lemma_prefix_head(q, p);
                }
            }
            assert forall|b: int| all_ids_below(p, b) implies tree_below(n, b) by {
                assert forall|j: int| 0 <= j < rest@.len() implies #[trigger] rest@[j] < b by {
                    assert(rest@[j] == p[j + 1]);
                }
                assert(tree_below(child, b));
                assert(p[0] < b);
                assert(n.nodes@[0] == child);
            }
        }
        Ok(n)
    }

    /// Adds the path `phrases` (starting with this node's phrase) ending in `task`.
    /// `Ok(false)` when the path does not start here; an error when the path already
    /// ends in a different non-empty task.
    pub fn add_nodes(&mut self, phrases: &[usize], task: &String) -> (res: Result<bool, String>)
        ensures
            phrases@.len() == 0 ==> (res matches Err(m) && m@ == "Given phrases of length 0"@),
            phrases@.len() > 0 && phrases@[0] != old(self).phrase_id() ==> res == Ok::<bool, String>(false),
            phrases@.len() > 0 && phrases@[0] == old(self).phrase_id() && conflicting(
                node_task_at(*old(self), phrases@),
                task@,
            ) ==> (res matches Err(m) && m@ == same_input_message(
                node_task_at(*old(self), phrases@).unwrap(),
                task@,
            )),
            phrases@.len() > 0 && phrases@[0] == old(self).phrase_id() && !conflicting(
                node_task_at(*old(self), phrases@),
                task@,
            ) ==> res == Ok::<bool, String>(true) && path_added(*old(self), *final(self), phrases@, task@),
            res == Ok::<bool, String>(false) ==> *final(self) == *old(self),
            res == Ok::<bool, String>(true) ==> node_added(*old(self), *final(self), phrases@, task@),
            res is Err ==> same_paths(*final(self), *old(self)),
            res is Err ==> same_tree(*final(self), *old(self)),
            final(self).phrase_id() == old(self).phrase_id(),
            forall|b: int|
                tree_below(*old(self), b) && all_ids_below(phrases@, b) ==> tree_below(*final(self), b),
        decreases *old(self),
    {
        if phrases.len() == 0 {
            proof {
                lemma_same_tree_refl(*self);
            }
            return Err(String::from_str("Given phrases of length 0"));
        }
        if phrases[0] != self.phrase {
            return Ok(false);
        }
        let ghost p = phrases@;
        if phrases.len() == 1 {
            if !self.task.as_str().is_empty() && self.task != *task {
                proof {
                    lemma_same_tree_refl(*self);
                }
                return Err(same_input(&self.task, task));
            }
            let ghost old_self = *self;
            self.task = task.clone();
            proof {
                assert(p =~= seq![p[0]]);
                assert forall|q: Seq<usize>|
                    q != p implies #[trigger] node_task_at(*self, q) == node_task_at(old_self, q) by {
                    if q.len() > 1 && q[0] == self.phrase {
                        assert(self.nodes@ == old_self.nodes@);
                    }
                    if q.len() == 1 && q[0] == self.phrase {
                        assert(q =~= p);
                    }
                }
                assert forall|b: int| tree_below(old_self, b) && all_ids_below(p, b) implies tree_below(*self, b) by {
                    assert forall|i: int| 0 <= i < self.nodes@.len() implies tree_below(#[trigger] self.nodes@[i], b) by {
                        assert(self.nodes@[i] == old_self.nodes@[i]);
                    }
                }
            }
            return Ok(true);
        }
        let rest = vstd::slice::slice_subrange(phrases, 1, phrases.len());
        let ghost r = rest@;
        proof {
            assert(r == p.drop_first());
            assert(node_task_at(*self, p) == task_at(self.nodes@, r));
            lemma_first_with(self.nodes@, r[0]);
        }
        let ghost old_self = *self;
        let mut i: usize = 0;
        while i < self.nodes.len()
            invariant
                i <= self.nodes@.len(),
                self.phrase == old_self.phrase,
                self.task == old_self.task,
                self.nodes@ == old_self.nodes@,
                r == rest@,
                r.len() > 0,
                p == phrases@,
                p.len() > 1,
                p[0] == old_self.phrase,
                old_self == *old(self),
                r == p.drop_first(),
                forall|j: int| 0 <= j < i ==> self.nodes@[j].phrase_id() != r[0],
            decreases self.nodes.len() - i,
        {
            let mut child = self.nodes.remove(i);
            let ghost old_child = child;
            proof {
                assert(old_child == old_self.nodes@[i as int]);
                assert(decreases_to!(old_self => old_self.nodes@[i as int]));
            assert(decreases_to!(*old(self) => child));
            }
            let res = child.add_nodes(rest, task);
            self.nodes.insert(i, child);
            proof {
                assert(self.nodes@ =~= old_self.nodes@.update(i as int, child));
            }
            match res {
                Ok(found) => {
                    if found {
                        proof {
                            lemma_first_with(old_self.nodes@, r[0]);
                            assert(first_with(old_self.nodes@, r[0]) == i);
                            assert forall|q: Seq<usize>| q != p implies #[trigger] node_task_at(*self, q) == node_task_at(
                                old_self,
                                q,
                            ) || (node_task_at(old_self, q) is None && proper_prefix(q, p) && node_task_at(*self, q)
                                == Some(Seq::<char>::empty())) by {
                                if q.len() > 1 && q[0] == self.phrase {
                                    let q1 = q.drop_first();
                                    lemma_task_at_update(old_self.nodes@, i as int, child, q1);
                                    lemma_prefix_cons(q, p);
                                    if first_with(old_self.nodes@, q1[0]) == i {
                                        assert(q1 != r);
                                        assert(node_task_at(old_child, q1) == task_at(old_self.nodes@, q1));
                                        assert(node_task_at(child, q1) == node_task_at(old_child, q1) || (
                                        node_task_at(old_child, q1) is None && proper_prefix(q1, r) && node_task_at(
                                            child,
                                            q1,
                                        ) == Some(Seq::<char>::empty())));
                                    }
                                }
                            }
                            lemma_task_at_update(old_self.nodes@, i as int, child, r);
                            assert forall|q: Seq<usize>| #[trigger] proper_prefix(q, p) implies node_task_at(
                                *self,
                                q,
                            ) is Some by {
                                lemma_proper_prefix_head(q, p);
                                if q.len() > 1 {
                                    let q1 = q.drop_first();
                                    lemma_prefix_cons(q, p);
                                    assert(proper_prefix(q1, r));
                                    lemma_proper_prefix_head(q1, r);
                                    lemma_task_at_update(old_self.nodes@, i as int, child, q1);
                                    assert(node_task_at(child, q1) is Some);
                                }
                            }
                            assert forall|b: int| tree_below(old_self, b) && all_ids_below(p, b) implies tree_below(
                                *self,
                                b,
                            ) by {
                                assert(tree_below(old_child, b));
                                assert forall|j: int| 0 <= j < r.len() implies #[trigger] r[j] < b by {
                                    assert(r[j] == p[j + 1]);
                                }
                                assert forall|j: int| 0 <= j < self.nodes@.len() implies tree_below(
                                    #[trigger] self.nodes@[j],
                                    b,
                                ) by {
                                    if j != i {
                                        assert(self.nodes@[j] == old_self.nodes@[j]);
                                    }
                                }
                            }
                        }
                        return Ok(true);
                    } else {
                        proof {
                            assert(self.nodes@ =~= old_self.nodes@);
                        }
                    }
                },
                Err(e) => {
                    proof {
                        assert(r[0] == old_child.phrase_id());
                        lemma_first_with(old_self.nodes@, r[0]);
                        assert(first_with(old_self.nodes@, r[0]) == i);
                        assert(node_task_at(old_self, p) == node_task_at(old_child, r));
                        assert forall|b: int| tree_below(old_self, b) && all_ids_below(p, b) implies tree_below(
                            *self,
                            b,
                        ) by {
                            assert(tree_below(old_child, b));
                            assert forall|j: int| 0 <= j < r.len() implies #[trigger] r[j] < b by {
                                assert(r[j] == p[j + 1]);
                            }
                            assert forall|j: int| 0 <= j < self.nodes@.len() implies tree_below(
                                #[trigger] self.nodes@[j],
                                b,
                            ) by {
                                if j != i {
                                    assert(self.nodes@[j] == old_self.nodes@[j]);
                                }
                            }
                        }
                        assert forall|q: Seq<usize>| #[trigger] node_task_at(*self, q) == node_task_at(old_self, q) by {
                            if q.len() > 1 && q[0] == self.phrase {
                                let q1 = q.drop_first();
                                lemma_task_at_update(old_self.nodes@, i as int, child, q1);
                                if first_with(old_self.nodes@, q1[0]) == i {
                                    assert(node_task_at(child, q1) == node_task_at(old_child, q1));
                                }
                            }
                        }
                        assert forall|j: int| 0 <= j < self.nodes@.len() implies same_tree(
                            #[trigger] self.nodes@[j],
                            old_self.nodes@[j],
                        ) by {
                            if j != i {
                                lemma_same_tree_refl(old_self.nodes@[j]);
                            }
                        }
                    }
                    return Err(e);
                },
            }
            i = i + 1;
        }
        let node = match Node::new_from_phrases(rest, task) {
            Ok(n) => n,
            Err(e) => return Err(e),
        };
        let ghost before = self.nodes@;
        self.nodes.push(node);
        proof {
            assert(first_with(before, r[0]) == -1);
            assert forall|q: Seq<usize>| q != p implies #[trigger] node_task_at(*self, q) == node_task_at(old_self, q)
                || (node_task_at(old_self, q) is None && proper_prefix(q, p) && node_task_at(*self, q) == Some(
                Seq::<char>::empty(),
            )) by {
                if q.len() > 1 && q[0] == self.phrase {
                    let q1 = q.drop_first();
                    lemma_task_at_push(before, node, q1);
                    lemma_prefix_cons(q, p);
                    if q1[0] == node.phrase_id() {
                        lemma_first_with(before, q1[0]);
                    }
                }
            }
            lemma_task_at_push(before, node, r);
            assert forall|q: Seq<usize>| #[trigger] proper_prefix(q, p) implies node_task_at(*self, q) is Some by {
                lemma_proper_prefix_head(q, p);
                if q.len() > 1 {
                    let q1 = q.drop_first();
                    lemma_prefix_cons(q, p);
                    assert(proper_prefix(q1, r));
                    lemma_proper_prefix_head(q1, r);
                    lemma_task_at_push(before, node, q1);
                    assert(node_task_at(node, q1) == fresh_path(r, task@, q1));
                }
            }
            assert forall|b: int| tree_below(old_self, b) && all_ids_below(p, b) implies tree_below(*self, b) by {
                assert forall|j: int| 0 <= j < r.len() implies #[trigger] r[j] < b by {
                    assert(r[j] == p[j + 1]);
                }
                assert forall|j: int| 0 <= j < self.nodes@.len() implies tree_below(#[trigger] self.nodes@[j], b) by {
                    if j < before.len() {
                        assert(self.nodes@[j] == old_self.nodes@[j]);
                    }
                }
            }
        }
        Ok(true)
    }
}

/// The ids in `ids` are all below `b`.
pub open spec fn all_ids_below(ids: Seq<usize>, b: int) -> bool {
    forall|j: int| 0 <= j < ids.len() ==> #[trigger] ids[j] < b
}

/// The message for two different tasks on the same input.
pub(crate) fn same_input(a: &String, b: &String) -> (res: String)
    ensures
        res@ == same_input_message(a@, b@),
{
    let mut m = String::from_str("Cannot compile because '");
    m.append(a.as_str());
    m.append("' and '");
    m.append(b.as_str());
    m.append("' has same input");
    m
}

/// The header line of the dump of `n`.
pub open spec fn node_header(s: Seq<Phrase>, n: Node) -> Seq<char> {
    "Task '"@ + n.task_view() + "' | Phrase '"@ + s[n.phrase_id() as int].name_view() + "' | Nodes |"@
}

/// A readable picture of the tree below `n`: its header, then the picture of each
/// following node, each line of it indented to the header's last bar.
pub closed spec fn node_dump(s: Seq<Phrase>, n: Node) -> Seq<char>
    decreases n, 1int, 0int,
{
    node_header(s, n) + children_dump(s, n.nodes@, n.nodes@.len() as int, (encode_utf8(node_header(s, n)).len() - 1) as nat)
}

/// The pictures of the first `k` of `nodes`, each on new lines and indented by
/// `width` spaces and a bar.
pub open spec fn children_dump(s: Seq<Phrase>, nodes: Seq<Node>, k: int, width: nat) -> Seq<char>
    decreases nodes, 0int, k,
{
    if k <= 0 || k > nodes.len() {
        Seq::empty()
    } else {
        children_dump(s, nodes, k - 1, width) + "\n"@ + indented(node_dump(s, nodes[k - 1]), width)
    }
}

impl Node {
    /// A readable picture of the tree below this node.
    pub fn get_dump_string(&self, store: &PhraseStore) -> (res: String)
        requires
            tree_below(*self, store@.len() as int),
        ensures
            res@ == node_dump(store@, *self),
        decreases *self, 1int, 0int,
    {
        let mut output = String::from_str("Task '");
        output.append(self.task.as_str());
        output.append("' | Phrase '");
        output.append(store.get(self.phrase).get_name().as_str());
        output.append("' | Nodes |");
        proof {
            assert(output@ == node_header(store@, *self));
            reveal_strlit("' | Nodes |");
            assert(output@.len() > 0);
            assert(encode_utf8(output@).len() > 0);
        }
        let width = output.as_str().as_bytes().len() - 1;
        let rest = dump_children(store, &self.nodes, width);
        output.append(rest.as_str());
        output
    }
}

/// The pictures of `nodes`, each on new lines and indented by `width` spaces and a
/// bar.
pub(crate) fn dump_children(store: &PhraseStore, nodes: &Vec<Node>, width: usize) -> (res: String)
    requires
        forall|i: int| 0 <= i < nodes@.len() ==> tree_below(#[trigger] nodes@[i], store@.len() as int),
    ensures
        res@ == children_dump(store@, nodes@, nodes@.len() as int, width as nat),
    decreases nodes@, 0int, 0int,
{
    let mut res = String::new();
    let mut i: usize = 0;
    while i < nodes.len()
        invariant
            i <= nodes@.len(),
            forall|k: int| 0 <= k < nodes@.len() ==> tree_below(#[trigger] nodes@[k], store@.len() as int),
            res@ == children_dump(store@, nodes@, i as int, width as nat),
        decreases nodes.len() - i,
    {
        let child = nodes[i].get_dump_string(store);
        let lines = indent(child.as_str(), width);
        res.append("\n");
        res.append(lines.as_str());
        i = i + 1;
    }
    res
}

/// Adding a path to a task a second time is accepted (the path leads to that task
/// already, so nothing conflicts) and changes no path's task.
pub proof fn law_add_path_twice(t0: Seq<Node>, t1: Seq<Node>, t2: Seq<Node>, p: Seq<usize>, task: Seq<char>)
    requires
        path_added_among(t0, t1, p, task),
        path_added_among(t1, t2, p, task),
    ensures
        !conflicting(task_at(t1, p), task),
        forall|q: Seq<usize>| #[trigger] task_at(t2, q) == task_at(t1, q),
{
    assert forall|q: Seq<usize>| #[trigger] task_at(t2, q) == task_at(t1, q) by {
        if q != p && proper_prefix(q, p) {
            assert(task_at(t1, q) is Some);
        }
    }
}

/// What `tree_below` says of a node: its phrase and those of all nodes below it are
/// below `bound`.
pub proof fn lemma_tree_below_unfold(n: Node, bound: int)
    ensures
        tree_below(n, bound) == (n.phrase_id() < bound && forall|i: int|
            0 <= i < n.children().len() ==> tree_below(#[trigger] n.children()[i], bound)),
{
    if tree_below(n, bound) {
        assert forall|i: int| 0 <= i < n.children().len() implies tree_below(#[trigger] n.children()[i], bound) by {
            assert(n.children()[i] == n.nodes@[i]);
        }
    }
    if n.phrase_id() < bound && forall|i: int|
        0 <= i < n.children().len() ==> tree_below(#[trigger] n.children()[i], bound) {
        assert forall|i: int| 0 <= i < n.nodes@.len() implies tree_below(#[trigger] n.nodes@[i], bound) by {
            assert(tree_below(n.children()[i], bound));
        }
    }
}

/// What `node_outcome` is, one step down: the node's phrase is matched, then (where
/// it neither fails nor covers the whole input with a task) its followers are matched
/// on the rest and the choice among them is made.
pub proof fn lemma_node_outcome_unfold(s: Seq<Phrase>, n: Node, input: Seq<Seq<char>>)
    ensures
        node_outcome(s, n, input) == match phrase_outcome(s, n.phrase_id() as int, input) {
            None => None,
            Some(my) => {
                if my.length == 0 {
                    Some(nothing())
                } else if my.length == input.len() && n.task_view().len() > 0 {
                    Some(
                        NodeOutcome {
                            task: n.task_view(),
                            confidence: my.confidence,
                            fields: my.fields,
                            length: my.length,
                        },
                    )
                } else if my.length > input.len() {
                    None
                } else if n.children().len() == 0 {
                    Some(initial_outcome(n.task_view(), my))
                } else {
                    match children_outcomes(
                        s,
                        n.children(),
                        n.children().len() as int,
                        input.skip(my.length as int),
                    ) {
                        None => None,
                        Some(rs) => Some(node_choice(initial_outcome(n.task_view(), my), rs, my)),
                    }
                }
            },
        },
{
}

/// What `node_task_at` is, one step down.
pub proof fn lemma_node_task_at_unfold(n: Node, q: Seq<usize>)
    ensures
        node_task_at(n, q) == if q.len() == 0 || q[0] != n.phrase_id() {
            None
        } else if q.len() == 1 {
            Some(n.task_view())
        } else {
            task_at(n.children(), q.drop_first())
        },
{
}

/// What `node_dump` is, one step down.
pub proof fn lemma_node_dump_unfold(s: Seq<Phrase>, n: Node)
    ensures
        node_dump(s, n) == node_header(s, n) + children_dump(
            s,
            n.children(),
            n.children().len() as int,
            (encode_utf8(node_header(s, n)).len() - 1) as nat,
        ),
{
}

/// The result of matching `input` along the phrases `p` one after the other, each
/// on the words the one before it left, the last one covering the rest exactly, for
/// the task `t`: confidences multiply, lengths add and field values are collected
/// (those of later phrases first, as a node adds its own after those of what
/// follows it).  `None` where a phrase fails, matches nothing, or the words do not
/// split so.
pub open spec fn chain_outcome(s: Seq<Phrase>, p: Seq<usize>, t: Seq<char>, input: Seq<Seq<char>>) -> Option<
    NodeOutcome,
>
    decreases p.len(),
{
    if p.len() == 0 {
        None
    } else {
        match phrase_outcome(s, p[0] as int, input) {
            None => None,
            Some(my) => {
                if my.length == 0 || my.length > input.len() {
                    None
                } else if p.len() == 1 {
                    if my.length == input.len() {
                        Some(NodeOutcome { task: t, confidence: my.confidence, fields: my.fields, length: my.length })
                    } else {
                        None
                    }
                } else if my.length == input.len() {
                    None
                } else {
                    match chain_outcome(s, p.drop_first(), t, input.skip(my.length as int)) {
                        None => None,
                        Some(r) => Some(extended(r, my.confidence, my.length, my.fields)),
                    }
                }
            },
        }
    }
}

/// A chain for the phrases `p` and the task `t` gives, on input that the phrases
/// match one after the other, that task with the chained result.
pub proof fn lemma_chain_outcome(s: Seq<Phrase>, c: Node, p: Seq<usize>, t: Seq<char>, input: Seq<Seq<char>>)
    requires
        is_chain(c, p, t),
        t.len() > 0,
        chain_outcome(s, p, t, input) is Some,
    ensures
        node_outcome(s, c, input) == chain_outcome(s, p, t, input),
        chain_outcome(s, p, t, input).unwrap().length > 0,
        chain_outcome(s, p, t, input).unwrap().task == t,
    decreases p.len(),
{
    let my = phrase_outcome(s, p[0] as int, input).unwrap();
    let o = chain_outcome(s, p, t, input).unwrap();
    if p.len() > 1 {
        let child = c.children()[0];
        let rest = input.skip(my.length as int);
        let r = chain_outcome(s, p.drop_first(), t, rest).unwrap();
        assert(o == extended(r, my.confidence, my.length, my.fields));
        lemma_chain_outcome(s, child, p.drop_first(), t, rest);
        assert(c.nodes@ == c.children());
        assert(children_outcomes(s, c.nodes@, 0, rest) == Some(Seq::<NodeOutcome>::empty()));
        assert(children_outcomes(s, c.nodes@, 1, rest) == Some(seq![r]));
        let init = initial_outcome(c.task_view(), my);
        assert(c.task_view().len() == 0);
        assert(init.length == 0);
        assert(node_score(init) == 0);
        if r.confidence > 0 {
            assert(r.length * r.confidence > 0) by (nonlinear_arith)
                requires
                    r.length > 0,
                    r.confidence > 0,
            ;
            lemma_tally_single(init, r);
            assert(seq![r][0] == r);
        } else {
            assert(r.confidence == 0);
            assert(node_score(r) == 0) by (nonlinear_arith)
                requires
                    r.confidence == 0,
                    node_score(r) == r.length * r.confidence,
            ;
            assert(init.task != r.task);
            lemma_tally_tie(init, r);
            assert(seq![init, r][1] == r);
        }
    }
}

/// The results so far, with one result as good as the first one offered but for
/// another task: both are kept, the first one offered first, and the task of the
/// other is counted once, so that it is chosen.
pub proof fn lemma_tally_tie(init: NodeOutcome, r: NodeOutcome)
    requires
        node_score(r) == node_score(init),
        init.task != r.task,
    ensures
        tally(init, seq![r]) == (seq![init, r], seq![(r.task, 1nat)], false),
        best_task(seq![(r.task, 1nat)]) == (r.task, 1nat),
        index_fold(seq![init, r], r.task, 2) == (false, 1int),
        chosen_index(seq![init, r], seq![(r.task, 1nat)]) == 1,
{
    let rs = seq![r];
    assert(rs.drop_last() =~= Seq::<NodeOutcome>::empty());
    assert(rs.last() == r);
    let prev = tally(init, rs.drop_last());
    assert(prev == (seq![init], Seq::<(Seq<char>, nat)>::empty(), false));
    assert(prev.0[0] == init);
    assert(find_task(Seq::<(Seq<char>, nat)>::empty(), r.task) == -1);
    assert(bump(Seq::<(Seq<char>, nat)>::empty(), r.task) =~= seq![(r.task, 1nat)]);
    assert(seq![init].push(r) =~= seq![init, r]);
    let cs = seq![(r.task, 1nat)];
    assert(cs.drop_last() =~= Seq::<(Seq<char>, nat)>::empty());
    assert(cs.last() == (r.task, 1nat));
    assert(best_task(cs.drop_last()) == (Seq::<char>::empty(), 0nat));
    let pot = seq![init, r];
    assert(index_fold(pot, r.task, 0) == (true, 0int));
    assert(pot[0] == init);
    assert(index_fold(pot, r.task, 1) == (true, 0int));
    assert(pot[1] == r);
}

/// The results so far, with one result that beats the first one offered: that
/// result alone is kept, and its task counted once.
pub proof fn lemma_tally_single(init: NodeOutcome, r: NodeOutcome)
    requires
        node_score(r) > node_score(init),
    ensures
        tally(init, seq![r]) == (seq![r], seq![(r.task, 1nat)], true),
        best_task(seq![(r.task, 1nat)]) == (r.task, 1nat),
        index_fold(seq![r], r.task, 1) == (false, 0int),
        chosen_index(seq![r], seq![(r.task, 1nat)]) == 0,
{
    let rs = seq![r];
    assert(rs.len() == 1);
    assert(rs.drop_last() =~= Seq::<NodeOutcome>::empty());
    assert(rs.last() == r);
    let prev = tally(init, rs.drop_last());
    assert(prev == (seq![init], Seq::<(Seq<char>, nat)>::empty(), false));
    assert(prev.0[0] == init);
    let cs = seq![(r.task, 1nat)];
    assert(cs.drop_last() =~= Seq::<(Seq<char>, nat)>::empty());
    assert(cs.last() == (r.task, 1nat));
    assert(best_task(cs.drop_last()) == (Seq::<char>::empty(), 0nat));
    assert(index_fold(rs, r.task, 0) == (true, 0int));
    assert(rs[0] == r);
}

/// The choice among the results of the first nodes of a tree that has one of them,
/// whose result is `o` with a score above zero or a task, is `o`.
pub proof fn lemma_base_choice_single(o: NodeOutcome)
    requires
        node_score(o) > 0 || o.task.len() > 0,
    ensures
        base_choice(seq![o]) == o,
{
    assert(node_score(nothing()) == 0);
    if node_score(o) > 0 {
        lemma_tally_single(nothing(), o);
        assert(seq![o][0] == o);
    } else {
        assert(nothing().task != o.task);
        lemma_tally_tie(nothing(), o);
        assert(seq![nothing(), o][1] == o);
    }
}

/// No two of `nodes` have the same phrase, and the same holds below each of them.
pub open spec fn siblings_distinct(nodes: Seq<Node>) -> bool
    decreases nodes, 0int,
{
    &&& forall|i: int, j: int|
        0 <= i < nodes.len() && 0 <= j < nodes.len() && i != j ==> #[trigger] nodes[i].phrase_id()
            != #[trigger] nodes[j].phrase_id()
    &&& forall|i: int| 0 <= i < nodes.len() ==> tree_distinct(#[trigger] nodes[i])
}

/// No two followers of any node in the tree `n` have the same phrase.
pub open spec fn tree_distinct(n: Node) -> bool
    decreases n, 1int,
{
    siblings_distinct(n.children())
}

proof fn lemma_chain_distinct(c: Node, p: Seq<usize>, t: Seq<char>)
    requires
        is_chain(c, p, t),
    ensures
        tree_distinct(c),
    decreases p.len(),
{
    if p.len() > 1 {
        lemma_chain_distinct(c.children()[0], p.drop_first(), t);
    }
}

proof fn lemma_node_added_distinct(before: Node, after: Node, p: Seq<usize>, t: Seq<char>)
    requires
        node_added(before, after, p, t),
        tree_distinct(before),
    ensures
        tree_distinct(after),
    decreases p.len(), 0int,
{
    if p.len() > 1 {
        lemma_children_added_distinct(before.children(), after.children(), p.drop_first(), t);
    }
}

proof fn lemma_children_added_distinct(before: Seq<Node>, after: Seq<Node>, p: Seq<usize>, t: Seq<char>)
    requires
        children_added(before, after, p, t),
        siblings_distinct(before),
    ensures
        siblings_distinct(after),
    decreases p.len(), 1int,
{
    let k = first_with(before, p[0]);
    lemma_first_with(before, p[0]);
    if 0 <= k < before.len() {
        lemma_node_added_distinct(before[k], after[k], p, t);
        assert forall|i: int| 0 <= i < after.len() implies tree_distinct(#[trigger] after[i]) by {
            if i != k {
                assert(after[i] == before[i]);
            }
        }
        assert forall|i: int, j: int|
            0 <= i < after.len() && 0 <= j < after.len() && i != j implies #[trigger] after[i].phrase_id()
                != #[trigger] after[j].phrase_id() by {
            assert(before[i].phrase_id() != before[j].phrase_id());
        }
    } else {
        let c = after.last();
        lemma_chain_distinct(c, p, t);
        assert forall|i: int| 0 <= i < after.len() implies tree_distinct(#[trigger] after[i]) by {
            if i < before.len() {
                assert(after[i] == before[i]);
            }
        }
        assert forall|i: int, j: int|
            0 <= i < after.len() && 0 <= j < after.len() && i != j implies #[trigger] after[i].phrase_id()
                != #[trigger] after[j].phrase_id() by {
            if i < before.len() && j < before.len() {
                assert(before[i].phrase_id() != before[j].phrase_id());
            } else if i < before.len() {
                assert(after[i] == before[i]);
            } else {
                assert(after[j] == before[j]);
            }
        }
    }
}

/// Adding a path below a node keeps the followers of every node apart by phrase:
/// where no node of the tree had two followers with the same phrase before, none has
/// after.
pub proof fn law_node_added_keeps_siblings_distinct(before: Node, after: Node, p: Seq<usize>, t: Seq<char>)
    requires
        node_added(before, after, p, t),
        tree_distinct(before),
    ensures
        tree_distinct(after),
{
    lemma_node_added_distinct(before, after, p, t);
}

/// Adding a path keeps the followers of every node apart by phrase: where no two
/// nodes at the same place in the tree had the same phrase before, none have after.
pub proof fn law_added_keeps_siblings_distinct(before: Seq<Node>, after: Seq<Node>, p: Seq<usize>, t: Seq<char>)
    requires
        children_added(before, after, p, t),
        siblings_distinct(before),
    ensures
        siblings_distinct(after),
{
    lemma_children_added_distinct(before, after, p, t);
}

proof fn lemma_tally(init: NodeOutcome, rs: Seq<NodeOutcome>)
    ensures
        tally(init, rs).0.len() >= 1,
        forall|j: int|
            0 <= j < tally(init, rs).0.len() ==> node_score(#[trigger] tally(init, rs).0[j]) == node_score(
                tally(init, rs).0[0],
            ),
        forall|i: int| 0 <= i < rs.len() ==> node_score(#[trigger] rs[i]) <= node_score(tally(init, rs).0[0]),
        node_score(init) <= node_score(tally(init, rs).0[0]),
        forall|j: int|
            0 <= j < tally(init, rs).0.len() ==> (j == 0 && !tally(init, rs).2 && #[trigger] tally(init, rs).0[j] == init)
                || exists|i: int| 0 <= i < rs.len() && tally(init, rs).0[j] == rs[i],
        !tally(init, rs).2 ==> tally(init, rs).0[0] == init,
    decreases rs.len(),
{
    if rs.len() > 0 {
        let prev = tally(init, rs.drop_last());
        let r = rs.last();
        lemma_tally(init, rs.drop_last());
        let t = tally(init, rs);
        assert forall|i: int| 0 <= i < rs.len() - 1 implies rs[i] == rs.drop_last()[i] by {}
        if node_score(r) > node_score(prev.0[0]) {
            assert(t.0 == seq![r]);
            assert(t.0[0] == rs[rs.len() - 1]);
        } else if node_score(r) == node_score(prev.0[0]) {
            assert(t.0 == prev.0.push(r));
            assert forall|j: int| 0 <= j < t.0.len() implies (j == 0 && !t.2 && #[trigger] t.0[j] == init) || exists|
                i: int,
            | 0 <= i < rs.len() && t.0[j] == rs[i] by {
                if j == t.0.len() - 1 {
                    assert(t.0[j] == rs[rs.len() - 1]);
                } else {
                    assert(t.0[j] == prev.0[j]);
                    if !(j == 0 && !prev.2 && prev.0[j] == init) {
                        let i = choose|i: int| 0 <= i < rs.drop_last().len() && prev.0[j] == rs.drop_last()[i];
                        assert(t.0[j] == rs[i]);
                    }
                }
            }
        } else {
            assert forall|j: int| 0 <= j < t.0.len() implies (j == 0 && !t.2 && #[trigger] t.0[j] == init) || exists|
                i: int,
            | 0 <= i < rs.len() && t.0[j] == rs[i] by {
                if !(j == 0 && !prev.2 && prev.0[j] == init) {
                    let i = choose|i: int| 0 <= i < rs.drop_last().len() && prev.0[j] == rs.drop_last()[i];
                    assert(t.0[j] == rs[i]);
                }
            }
        }
    }
}

proof fn lemma_index_fold_range(pot: Seq<NodeOutcome>, task: Seq<char>, k: int)
    requires
        0 <= k,
    ensures
        0 <= index_fold(pot, task, k).1,
        k > 0 ==> index_fold(pot, task, k).1 < k,
    decreases k,
{
    if k > 0 {
        lemma_index_fold_range(pot, task, k - 1);
    }
}

/// The pick among the results `rs`, with `initial` offered first (see `picked`),
/// scores at least as well as `initial` and as each of `rs`; it is one of `rs` where
/// it came from them, and `initial` where not.
pub proof fn law_pick_best(initial: NodeOutcome, rs: Seq<NodeOutcome>, r: NodeOutcome, from_rs: bool)
    requires
        picked(initial, rs, r, from_rs),
    ensures
        node_score(initial) <= node_score(r),
        forall|i: int| 0 <= i < rs.len() ==> node_score(#[trigger] rs[i]) <= node_score(r),
        from_rs ==> exists|i: int| 0 <= i < rs.len() && r == rs[i],
        !from_rs ==> r == initial,
{
    let t = tally(initial, rs);
    lemma_tally(initial, rs);
    lemma_index_fold_range(t.0, best_task(t.1).0, t.0.len() as int);
    let idx = chosen_index(t.0, t.1);
    assert(0 <= idx < t.0.len());
    assert(node_score(t.0[idx]) == node_score(t.0[0]));
    if from_rs {
        if !((idx == 0 && !t.2 && t.0[idx] == initial)) {
            let i = choose|i: int| 0 <= i < rs.len() && t.0[idx] == rs[i];
            assert(r == rs[i]);
        } else {
            assert(false);
        }
    }
}

/// The choice among the results `rs` of the first nodes of a tree scores at least
/// as well as each of them; it is one of them, or the empty result, and it is one of
/// them where one of them scores above zero.
pub proof fn law_base_choice_best(rs: Seq<NodeOutcome>)
    ensures
        forall|i: int| 0 <= i < rs.len() ==> node_score(#[trigger] rs[i]) <= node_score(base_choice(rs)),
        base_choice(rs) == nothing() || exists|i: int| 0 <= i < rs.len() && base_choice(rs) == rs[i],
        (exists|i: int| 0 <= i < rs.len() && node_score(rs[i]) > 0) ==> exists|i: int|
            0 <= i < rs.len() && base_choice(rs) == rs[i],
{
    let t = tally(nothing(), rs);
    let idx = chosen_index(t.0, t.1);
    let from_rs = t.2 || idx != 0;
    assert(picked(nothing(), rs, base_choice(rs), from_rs));
    law_pick_best(nothing(), rs, base_choice(rs), from_rs);
    if !from_rs {
        assert(base_choice(rs) == nothing());
        if exists|i: int| 0 <= i < rs.len() && node_score(rs[i]) > 0 {
            let i = choose|i: int| 0 <= i < rs.len() && node_score(rs[i]) > 0;
            assert(node_score(rs[i]) <= node_score(base_choice(rs)));
            assert(node_score(nothing()) == 0);
        }
    }
}

proof fn lemma_best_task(counts: Seq<(Seq<char>, nat)>)
    ensures
        forall|k: int| 0 <= k < counts.len() ==> (#[trigger] counts[k]).1 <= best_task(counts).1,
        counts.len() > 0 && best_task(counts).1 > 0 ==> exists|k: int|
            0 <= k < counts.len() && counts[k] == best_task(counts),
    decreases counts.len(),
{
    if counts.len() > 0 {
        lemma_best_task(counts.drop_last());
        assert forall|k: int| 0 <= k < counts.len() - 1 implies counts[k] == counts.drop_last()[k] by {}
        let b = best_task(counts.drop_last());
        if counts.last().1 > b.1 {
            assert(counts[counts.len() - 1] == best_task(counts));
        } else if best_task(counts).1 > 0 {
            let k = choose|k: int| 0 <= k < counts.drop_last().len() && counts.drop_last()[k] == b;
            assert(counts[k] == best_task(counts));
        }
    }
}

proof fn lemma_index_fold(pot: Seq<NodeOutcome>, task: Seq<char>, k: int)
    requires
        0 <= k <= pot.len(),
    ensures
        index_fold(pot, task, k).0 <==> forall|j: int| 0 <= j < k ==> (#[trigger] pot[j]).task != task,
        !index_fold(pot, task, k).0 ==> {
            let x = index_fold(pot, task, k).1;
            &&& 0 <= x < k
            &&& pot[x].task == task
            &&& forall|j: int| 0 <= j < k && (#[trigger] pot[j]).task == task ==> pot[j].length <= pot[x].length
            &&& forall|j: int| 0 <= j < x && (#[trigger] pot[j]).task == task ==> pot[j].length < pot[x].length
        },
    decreases k,
{
    if k > 0 {
        lemma_index_fold(pot, task, k - 1);
    }
}

/// The task of the pick among the results `rs`, with `initial` offered first, is the
/// task counted most often (the first such one) among the kept results, where any is
/// counted; the pick is the first of greatest length among the kept results with
/// that task, and no task is counted more often.
pub proof fn law_pick_task(initial: NodeOutcome, rs: Seq<NodeOutcome>)
    ensures
        ({
            let t = tally(initial, rs);
            let b = best_task(t.1);
            let x = chosen_index(t.0, t.1);
            &&& forall|k: int| 0 <= k < t.1.len() ==> (#[trigger] t.1[k]).1 <= b.1
            &&& (exists|j: int| 0 <= j < t.0.len() && (#[trigger] t.0[j]).task == b.0) ==> {
                &&& t.0[x].task == b.0
                &&& forall|j: int| 0 <= j < t.0.len() && (#[trigger] t.0[j]).task == b.0 ==> t.0[j].length <= t.0[x].length
                &&& forall|j: int| 0 <= j < x && (#[trigger] t.0[j]).task == b.0 ==> t.0[j].length < t.0[x].length
            }
        }),
{
    let t = tally(initial, rs);
    lemma_best_task(t.1);
    lemma_index_fold(t.0, best_task(t.1).0, t.0.len() as int);
}

} // verus!
