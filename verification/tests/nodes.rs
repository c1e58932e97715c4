use nlp_processor::node::base_node::BaseNode;
use nlp_processor::node::node::Node;
use nlp_processor::node::result::NodeResult;
use nlp_processor::phrase::phrase::{Phrase, PhraseStore};
use nlp_processor::phrase::result::{PhraseResult, CONFIDENCE_SCALE};
use nlp_processor::phrase::word_phrase::WordPhrase;

fn words(s: &str) -> Vec<String> {
    s.split(' ').map(|w| w.to_string()).collect()
}

fn word(store: &mut PhraseStore, text: &str) -> usize {
    store.add(Phrase::Word(WordPhrase::new(&text.to_string(), text.to_string())))
}

#[test]
fn added_path_is_found_by_input() {
    let mut store = PhraseStore::new();
    let hi = word(&mut store, "hi");
    let there = word(&mut store, "there");
    let mut base = BaseNode::new();
    assert_eq!(base.add_nodes(&[hi, there], &"greet".to_string()), Ok(true));
    let r = base.input(&store, &words("hi there"));
    assert_eq!(r.get_task(), "greet");
    assert_eq!(r.len(), 2);
    assert_eq!(r.get_confidence(), CONFIDENCE_SCALE);
}

#[test]
fn empty_path_is_refused() {
    let mut base = BaseNode::new();
    assert_eq!(base.add_nodes(&[], &"greet".to_string()), Err("0 length phrase given".to_string()));
}

#[test]
fn same_path_to_other_task_is_refused() {
    let mut store = PhraseStore::new();
    let hi = word(&mut store, "hi");
    let mut base = BaseNode::new();
    assert_eq!(base.add_nodes(&[hi], &"greet".to_string()), Ok(true));
    assert_eq!(
        base.add_nodes(&[hi], &"other".to_string()),
        Err("Cannot compile because 'greet' and 'other' has same input".to_string())
    );
    assert_eq!(base.add_nodes(&[hi], &"greet".to_string()), Ok(true));
    let r = base.input(&store, &words("hi"));
    assert_eq!(r.get_task(), "greet");
}

#[test]
fn longer_path_beats_its_prefix() {
    let mut store = PhraseStore::new();
    let hi = word(&mut store, "hi");
    let there = word(&mut store, "there");
    let mut base = BaseNode::new();
    assert_eq!(base.add_nodes(&[hi], &"short".to_string()), Ok(true));
    assert_eq!(base.add_nodes(&[hi, there], &"long".to_string()), Ok(true));
    let r = base.input(&store, &words("hi there"));
    assert_eq!(r.get_task(), "long");
    assert_eq!(r.len(), 2);
    let r = base.input(&store, &words("hi"));
    assert_eq!(r.get_task(), "short");
    assert_eq!(r.len(), 1);
}

#[test]
fn no_match_gives_empty_task() {
    let mut store = PhraseStore::new();
    let hi = word(&mut store, "hi");
    let mut base = BaseNode::new();
    assert_eq!(base.add_nodes(&[hi], &"greet".to_string()), Ok(true));
    let r = base.input(&store, &words("bye"));
    assert_eq!(r.get_task(), "");
    assert_eq!(r.len(), 0);
    assert_eq!(r.get_confidence(), 0);
}

#[test]
fn node_from_phrases_builds_a_chain() {
    let mut store = PhraseStore::new();
    let a = word(&mut store, "a");
    let b = word(&mut store, "b");
    let c = word(&mut store, "c");
    let n = Node::new_from_phrases(&[a, b, c], &"abc".to_string()).unwrap();
    let r = n.input(&store, &words("a b c"));
    assert_eq!(r.get_task(), "abc");
    assert_eq!(r.len(), 3);
    assert!(Node::new_from_phrases(&[], &"abc".to_string()).is_err());
}

#[test]
fn dump_shows_tree() {
    let mut store = PhraseStore::new();
    let hi = word(&mut store, "hi");
    let there = word(&mut store, "there");
    let mut base = BaseNode::new();
    assert_eq!(base.add_nodes(&[hi, there], &"greet".to_string()), Ok(true));
    let expected = format!(
        "Base Node |\n{}| Task '' | Phrase 'hi' | Nodes |\n{}| {}| Task 'greet' | Phrase 'there' | Nodes |",
        " ".repeat(10),
        " ".repeat(10),
        " ".repeat(30)
    );
    assert_eq!(base.get_dump_string(&store), expected);
}

#[test]
fn node_result_from_phrase_and_updates() {
    let mut p = PhraseResult::new(800_000, 2);
    p.add_values(&"f".to_string(), &vec!["v".to_string()]);
    let mut r = NodeResult::new_from_phrase(&"task".to_string(), &p);
    assert_eq!(r.get_task(), "task");
    assert_eq!(r.len(), 2);
    assert_eq!(r.get_confidence(), 800_000);
    assert_eq!(r.get_fields().len(), 1);
    r.add_length(3);
    r.mult_confidence(500_000);
    assert_eq!(r.len(), 5);
    assert_eq!(r.get_confidence(), 400_000);
    assert_eq!(r.get_score(), 5 * 400_000);
}

#[test]
fn shared_first_phrase_keeps_one_node() {
    let mut store = PhraseStore::new();
    let hi = word(&mut store, "hi");
    let there = word(&mut store, "there");
    let bye = word(&mut store, "bye");
    let mut base = BaseNode::new();
    assert_eq!(base.add_nodes(&[hi], &"greet".to_string()), Ok(true));
    assert_eq!(base.add_nodes(&[hi, there], &"long".to_string()), Ok(true));
    assert_eq!(base.add_nodes(&[bye], &"bye".to_string()), Ok(true));
    let expected = format!(
        "Base Node |\n{}| Task 'greet' | Phrase 'hi' | Nodes |\n{}| {}| Task 'long' | Phrase 'there' | Nodes |\n{}| Task 'bye' | Phrase 'bye' | Nodes |",
        " ".repeat(10),
        " ".repeat(10),
        " ".repeat(35),
        " ".repeat(10)
    );
    assert_eq!(base.get_dump_string(&store), expected);
}

#[test]
fn line_added_to_empty_tree_is_found_again() {
    let mut store = PhraseStore::new();
    let a = word(&mut store, "a");
    let b = word(&mut store, "b");
    let c = word(&mut store, "c");
    let mut base = BaseNode::new();
    assert_eq!(base.add_nodes(&[a, b, c], &"abc".to_string()), Ok(true));
    let r = base.input(&store, &words("A b C"));
    assert_eq!(r.get_task(), "abc");
    assert_eq!(r.len(), 3);
    assert_eq!(r.get_confidence(), CONFIDENCE_SCALE);
}

#[test]
fn refused_path_leaves_tree_unchanged() {
    let mut store = PhraseStore::new();
    let hi = word(&mut store, "hi");
    let mut base = BaseNode::new();
    assert_eq!(base.add_nodes(&[hi], &"greet".to_string()), Ok(true));
    let before = base.get_dump_string(&store);
    assert!(base.add_nodes(&[hi], &"other".to_string()).is_err());
    assert_eq!(base.get_dump_string(&store), before);
}
