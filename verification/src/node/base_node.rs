//! The root of the node tree.
use vstd::prelude::*;
use crate::node::node::{
    base_choice, children_outcomes, choose_among, conflicting, first_with, lemma_first_with,
    lemma_proper_prefix_head, lemma_task_at_first, lemma_task_at_push, lemma_task_at_update, node_result_is, node_task_at, nothing, path_added_among,
    same_input, same_input_message, task_at, tree_below, all_ids_below, children_dump, dump_children, Node,
    children_added, lemma_same_tree_refl, same_tree, chain_outcome, lemma_chain_outcome, lemma_base_choice_single,
};
use vstd::utf8::encode_utf8;
use crate::node::result::{NodeOutcome, NodeResult};
use crate::phrase::phrase::{Phrase, PhraseStore};
use crate::text::views;

verus! {

/// The root of the node tree: the first phrases of all tasks.
pub struct BaseNode {
    nodes: Vec<Node>,
}

/// The result of matching `input` against the whole tree whose first nodes are
/// `nodes`; `None` where matching would slice past the end of the input.
pub open spec fn base_outcome(s: Seq<Phrase>, nodes: Seq<Node>, input: Seq<Seq<char>>) -> Option<NodeOutcome> {
    if nodes.len() == 0 {
        Some(nothing())
    } else {
        match children_outcomes(s, nodes, nodes.len() as int, input) {
            None => None,
            Some(rs) => Some(base_choice(rs)),
        }
    }
}

/// A readable picture of the whole tree: a header, then the picture of each of the
/// first nodes, each line of it indented to the header's bar.
pub open spec fn base_dump(s: Seq<Phrase>, nodes: Seq<Node>) -> Seq<char> {
    "Base Node |"@ + children_dump(s, nodes, nodes.len() as int, (encode_utf8("Base Node |"@).len() - 1) as nat)
}

impl BaseNode {
    pub closed spec fn children(&self) -> Seq<Node> {
        self.nodes@
    }

    /// Every phrase in the tree is below `bound`.
    pub open spec fn wf(&self, bound: int) -> bool {
        forall|i: int| 0 <= i < self.children().len() ==> tree_below(#[trigger] self.children()[i], bound)
    }

    pub proof fn lemma_wf_mono(&self, b: int, b2: int)
        requires
            self.wf(b),
            b <= b2,
        ensures
            self.wf(b2),
    {
        assert forall|i: int| 0 <= i < self.children().len() implies tree_below(#[trigger] self.children()[i], b2) by {
            crate::node::node::lemma_tree_below_mono(self.children()[i], b, b2);
        }
    }

    pub fn new() -> (res: BaseNode)
        ensures
            res.children() == Seq::<Node>::empty(),
            forall|b: int| res.wf(b),
    {
        BaseNode { nodes: Vec::new() }
    }

    /// Matches `input` against the tree; `None` exactly where the match would slice
    /// past the end of the input.
    pub fn try_input(&self, store: &PhraseStore, input: &[String]) -> (res: Option<NodeResult>)
        requires
            store.wf(),
            self.wf(store@.len() as int),
        ensures
            node_result_is(res, base_outcome(store@, self.children(), views(input@)), input@.len()),
    {
        let initial = NodeResult::new(&String::new(), 0, 0);
        if self.nodes.len() == 0 {
            return Some(initial);
        }
        match choose_among(store, &self.nodes, input, initial) {
            Some(chosen) => Some(chosen.0),
            None => None,
        }
    }

    /// Matches `input` against the tree.
    pub fn input(&self, store: &PhraseStore, input: &[String]) -> (res: NodeResult)
        requires
            store.wf(),
            self.wf(store@.len() as int),
            base_outcome(store@, self.children(), views(input@)) is Some,
        ensures
            res.wf(),
            base_outcome(store@, self.children(), views(input@)) == Some(res@),
            res@.length <= input@.len(),
    {
        match self.try_input(store, input) {
            Some(r) => r,
            None => NodeResult::new(&String::new(), 0, 0),
        }
    }

    /// Adds the path `phrases` ending in `task`; an error when `phrases` is empty or
    /// the path already ends in a different non-empty task.
    pub fn add_nodes(&mut self, phrases: &[usize], task: &String) -> (res: Result<bool, String>)
        ensures
            phrases@.len() == 0 ==> (res matches Err(m) && m@ == "0 length phrase given"@),
            phrases@.len() > 0 && conflicting(task_at(old(self).children(), phrases@), task@) ==> (res matches Err(
                m,
            ) && m@ == same_input_message(task_at(old(self).children(), phrases@).unwrap(), task@)),
            phrases@.len() > 0 && !conflicting(task_at(old(self).children(), phrases@), task@) ==> res == Ok::<
                bool,
                String,
            >(true) && path_added_among(old(self).children(), final(self).children(), phrases@, task@),
            res is Err ==> forall|q: Seq<usize>| #[trigger]
                task_at(final(self).children(), q) == task_at(old(self).children(), q),
            res is Ok ==> children_added(old(self).children(), final(self).children(), phrases@, task@),
            res is Err ==> final(self).children().len() == old(self).children().len() && forall|j: int|
                0 <= j < old(self).children().len() ==> same_tree(
                    #[trigger] final(self).children()[j],
                    old(self).children()[j],
                ),
            forall|b: int| old(self).wf(b) && all_ids_below(phrases@, b) ==> final(self).wf(b),
    {
        if phrases.len() == 0 {
            proof {
                assert forall|j: int| 0 <= j < self.children().len() implies same_tree(
                    #[trigger] self.children()[j],
                    self.children()[j],
                ) by {
                    lemma_same_tree_refl(self.children()[j]);
                }
            }
            return Err(String::from_str("0 length phrase given"));
        }
        let ghost p = phrases@;
        let ghost old_nodes = self.nodes@;
        proof {
            lemma_first_with(old_nodes, p[0]);
        }
        let mut i: usize = 0;
        while i < self.nodes.len()
            invariant
                i <= self.nodes@.len(),
                self.nodes@ == old_nodes,
                old_nodes == old(self).children(),
                p == phrases@,
                p.len() > 0,
                forall|j: int| 0 <= j < i ==> old_nodes[j].phrase_id() != p[0],
            decreases self.nodes.len() - i,
        {
            let mut child = self.nodes.remove(i);
            let ghost old_child = child;
            proof {
                assert(old_child == old_nodes[i as int]);
            }
            let res = child.add_nodes(phrases, task);
            self.nodes.insert(i, child);
            proof {
                assert(self.nodes@ =~= old_nodes.update(i as int, child));
            }
            match res {
                Ok(found) => {
                    if found {
                        proof {
                            lemma_first_with(old_nodes, p[0]);
                            assert(first_with(old_nodes, p[0]) == i);
                            lemma_task_at_first(old_nodes, p);
                            assert(task_at(old_nodes, p) == node_task_at(old_child, p));
                            lemma_task_at_update(old_nodes, i as int, child, p);
                            assert forall|q: Seq<usize>| #[trigger] crate::node::node::proper_prefix(q, p) implies task_at(
                                self.nodes@,
                                q,
                            ) is Some by {
                                lemma_proper_prefix_head(q, p);
                                lemma_task_at_update(old_nodes, i as int, child, q);
                                lemma_first_with(old_nodes, q[0]);
                                assert(node_task_at(child, q) is Some);
                            }
                            assert forall|q: Seq<usize>|
                                q != p implies #[trigger] task_at(self.nodes@, q) == task_at(old_nodes, q) || (
                            task_at(old_nodes, q) is None && crate::node::node::proper_prefix(q, p) && task_at(
                                self.nodes@,
                                q,
                            ) == Some(Seq::<char>::empty())) by {
                                lemma_task_at_update(old_nodes, i as int, child, q);
                                if q.len() > 0 && first_with(old_nodes, q[0]) == i {
                                    lemma_task_at_first(old_nodes, q);
                                    assert(node_task_at(child, q) == node_task_at(old_child, q) || (node_task_at(
                                        old_child,
                                        q,
                                    ) is None && crate::node::node::proper_prefix(q, p) && node_task_at(child, q)
                                        == Some(Seq::<char>::empty())));
                                }
                            }
                            assert forall|b: int| old(self).wf(b) && all_ids_below(p, b) implies self.wf(b) by {
                                assert(tree_below(old_nodes[i as int], b));
                                assert forall|j: int| 0 <= j < self.nodes@.len() implies tree_below(
                                    #[trigger] self.children()[j],
                                    b,
                                ) by {
                                    if j != i {
                                        assert(self.nodes@[j] == old_nodes[j]);
                                    }
                                }
                            }
                        }
                        return Ok(true);
                    } else {
                        proof {
                            assert(self.nodes@ =~= old_nodes);
                        }
                    }
                },
                Err(e) => {
                    proof {
                        lemma_first_with(old_nodes, p[0]);
                        assert(first_with(old_nodes, p[0]) == i);
                        lemma_task_at_first(old_nodes, p);
                        assert(task_at(old_nodes, p) == node_task_at(old_child, p));
                        assert forall|q: Seq<usize>| #[trigger] task_at(self.nodes@, q) == task_at(old_nodes, q) by {
                            lemma_task_at_update(old_nodes, i as int, child, q);
                            if q.len() > 0 && first_with(old_nodes, q[0]) == i {
                                lemma_task_at_first(old_nodes, q);
                                assert(node_task_at(child, q) == node_task_at(old_child, q));
                            }
                        }
                        assert forall|b: int| old(self).wf(b) && all_ids_below(p, b) implies self.wf(b) by {
                            assert(tree_below(old_nodes[i as int], b));
                            assert forall|j: int| 0 <= j < self.nodes@.len() implies tree_below(
                                #[trigger] self.children()[j],
                                b,
                            ) by {
                                if j != i {
                                    assert(self.nodes@[j] == old_nodes[j]);
                                }
                            }
                        }
                        assert forall|j: int| 0 <= j < old_nodes.len() implies same_tree(
                            #[trigger] self.children()[j],
                            old_nodes[j],
                        ) by {
                            if j != i {
                                lemma_same_tree_refl(old_nodes[j]);
                            }
                        }
                    }
                    return Err(e);
                },
            }
            i = i + 1;
        }
        let node = if phrases.len() > 1 {
            match Node::new_from_phrases(phrases, task) {
                Ok(n) => n,
                Err(e) => return Err(e),
            }
        } else {
            let n = Node::new(phrases[0], task);
            proof {
                assert(p =~= seq![p[0]]);
                assert forall|b: int| all_ids_below(p, b) implies tree_below(n, b) by {
                    assert(p[0] < b);
                }
            }
            n
        };
        self.nodes.push(node);
        proof {
            lemma_first_with(old_nodes, p[0]);
            assert(first_with(old_nodes, p[0]) == -1);
            lemma_task_at_first(old_nodes, p);
            lemma_task_at_push(old_nodes, node, p);
            assert forall|q: Seq<usize>| #[trigger] crate::node::node::proper_prefix(q, p) implies task_at(
                self.nodes@,
                q,
            ) is Some by {
                lemma_proper_prefix_head(q, p);
                lemma_task_at_push(old_nodes, node, q);
            }
            assert forall|q: Seq<usize>|
                q != p implies #[trigger] task_at(self.nodes@, q) == task_at(old_nodes, q) || (task_at(old_nodes, q) is None
                && crate::node::node::proper_prefix(q, p) && task_at(self.nodes@, q) == Some(Seq::<char>::empty())) by {
                lemma_task_at_push(old_nodes, node, q);
                if q.len() > 0 && q[0] == p[0] {
                    lemma_first_with(old_nodes, q[0]);
                    lemma_task_at_first(old_nodes, q);
                }
            }
            assert forall|b: int| old(self).wf(b) && all_ids_below(p, b) implies self.wf(b) by {
                assert forall|j: int| 0 <= j < self.nodes@.len() implies tree_below(#[trigger] self.children()[j], b) by {
                    if j < old_nodes.len() {
                        assert(self.nodes@[j] == old_nodes[j]);
                    }
                }
            }
        }
        Ok(true)
    }
}

impl BaseNode {
    /// A readable picture of the whole tree.
    pub fn get_dump_string(&self, store: &PhraseStore) -> (res: String)
        requires
            self.wf(store@.len() as int),
        ensures
            res@ == base_dump(store@, self.children()),
    {
        let mut output = String::from_str("Base Node |");
        proof {
            reveal_strlit("Base Node |");
            assert(output@.len() > 0);
            assert(encode_utf8(output@).len() > 0);
        }
        let width = output.as_str().as_bytes().len() - 1;
        proof {
            assert forall|i: int| 0 <= i < self.nodes@.len() implies tree_below(
                #[trigger] self.nodes@[i],
                store@.len() as int,
            ) by {
                assert(tree_below(self.children()[i], store@.len() as int));
            }
        }
        let rest = dump_children(store, &self.nodes, width);
        output.append(rest.as_str());
        output
    }
}

/// A line added for a task to an empty tree is found again by its own input: where
/// the line's phrases match the input one after the other, covering it, matching the
/// tree gives that task with the chained result.
pub proof fn law_added_line_found(
    s: Seq<Phrase>,
    after: Seq<Node>,
    p: Seq<usize>,
    t: Seq<char>,
    input: Seq<Seq<char>>,
)
    requires
        children_added(Seq::empty(), after, p, t),
        t.len() > 0,
        chain_outcome(s, p, t, input) is Some,
    ensures
        base_outcome(s, after, input) == chain_outcome(s, p, t, input),
        chain_outcome(s, p, t, input).unwrap().task == t,
{
    assert(first_with(Seq::<Node>::empty(), p[0]) == -1);
    assert(after.len() == 1);
    let c = after[0];
    assert(after.last() == c);
    lemma_chain_outcome(s, c, p, t, input);
    let o = chain_outcome(s, p, t, input).unwrap();
    assert(children_outcomes(s, after, 0, input) == Some(Seq::<NodeOutcome>::empty()));
    assert(children_outcomes(s, after, 1, input) == Some(seq![o]));
    lemma_base_choice_single(o);
}

} // verus!
